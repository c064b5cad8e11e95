//! Hindley-Milner type inference for LM.
//!
//! The [`TypeChecker`] walks the AST, assigns types to expressions with the
//! unification table, and collects type error diagnostics; effect checking
//! and exhaustiveness checking run after it.
use vstd::prelude::*;
use crate::ast::{Program, Decl, DeclKind, Effect, Param, Variant, Expr, ExprKind, LitValue, BinOp, UnOp, MatchArm,
    Pattern, PatternKind, TypeAnnotation, TypeKind};
use crate::diagnostics::{Diagnostic, Label, Span, Severity};
use crate::env::{AdtInfo, FnEffectInfo, TypeEnv, VariantInfo, clone_strings, builtin_effects};
use crate::effects::{program_io_calls, reports_after};
use crate::exhaustiveness::{emits, program_exh_diags, ExhNames, exh_names, variant_names};
use crate::env::{named_among, same_entry, nth_fresh, lookup_scopes};
use crate::types::{Type, TyV, TypeScheme, duplicate_list, tview_list, lemma_tview_list_push, display, subst_ty, occ, add_new, ids};
use crate::unify::{UnificationTable, extends};
use crate::text::{owned, cat, eq_lit, usize_to_string, decimal};
use crate::parser::{DiagV, dviews, grows_by, lemma_grows_none, lemma_grows_append, lemma_grows_trans};
use crate::effects::check_effects;
use crate::exhaustiveness::check_exhaustiveness;

verus! {

/// The error codes of type, effect and exhaustiveness checking.
pub open spec fn is_check_code(c: Seq<char>) -> bool {
    c == "E0200"@ || c == "E0201"@ || c == "E0202"@ || c == "E0203"@ || c == "E0204"@
        || c == "E0205"@ || c == "E0206"@ || c == "E0207"@ || c == "E0208"@
        || c == "E0300"@ || c == "E0400"@ || c == "E0401"@
}

/// Every diagnostic of `ds` carries one of the checker's codes.
pub open spec fn check_codes(ds: Seq<Diagnostic>) -> bool {
    forall|k: int| 0 <= k < ds.len() ==> is_check_code(#[trigger] ds[k].code.0@)
}

/// The effects recorded after registering the functions among `ds` over
/// `m`: each function's name with its declared effect, the last one of a
/// name winning.
pub open spec fn declared_effects(ds: Seq<Decl>, m: Map<Seq<char>, FnEffectInfo>) -> Map<Seq<char>, FnEffectInfo>
    decreases ds.len(),
{
    if ds.len() == 0 {
        m
    } else {
        declared_effects(ds.drop_first(), match ds[0].kind {
            DeclKind::FnDef { name, effect, .. } => m.insert(name@, FnEffectInfo { effect }),
            _ => m,
        })
    }
}

/// The effect of every function a program can call: the builtins', then
/// those its functions declare.
pub open spec fn program_effects(ds: Seq<Decl>) -> Map<Seq<char>, FnEffectInfo> {
    declared_effects(ds, builtin_effects())
}

/// `r` holds, from `m` to `n`, one E0300 report for each call of an io
/// function from a pure function of `ds`, in order, and after `n` the
/// match diagnostics of `ds` under the types `ds` declares (any environment
/// with those names gives the same diagnostics): E0400 for each match that
/// misses cases, E0401 for each arm after a catch-all.
pub open spec fn phases_reported(r: Seq<Diagnostic>, m: int, n: int, ds: Seq<Decl>) -> bool {
    &&& 0 <= m <= n <= r.len()
    &&& reports_after(r.subrange(0, m), r.subrange(0, n), program_io_calls(ds, program_effects(ds)))
    &&& forall|k: int| n <= k < r.len() ==> (#[trigger] r[k].code.0@ == "E0400"@ || r[k].code.0@ == "E0401"@)
    &&& exists|env: TypeEnv| exh_names(env) == program_names(ds)
        && emits(r.subrange(0, n), r, #[trigger] program_exh_diags(ds, env))
}

/// Whether one of the variants `vs` is named `k`.
pub open spec fn declares(vs: Seq<Variant>, k: Seq<char>) -> bool {
    exists|a: int| 0 <= a < vs.len() && #[trigger] vs[a].name@ == k
}

/// The names after registering the type `name` with the variants `vs`: its
/// variant names, and the type as the owner of each of them.
pub open spec fn add_type(n: ExhNames, name: Seq<char>, vs: Seq<Variant>) -> ExhNames {
    ExhNames {
        owners: Map::new(
            |k: Seq<char>| n.owners.contains_key(k) || declares(vs, k),
            |k: Seq<char>| if declares(vs, k) { name } else { n.owners[k] },
        ),
        adts: n.adts.insert(name, vs.map_values(|v: Variant| v.name@)),
    }
}

/// The names after registering the types declared among `ds`, in order,
/// over `n`.
pub open spec fn names_after(ds: Seq<Decl>, n: ExhNames) -> ExhNames
    decreases ds.len(),
{
    if ds.len() == 0 {
        n
    } else {
        names_after(ds.drop_first(), match ds[0].kind {
            DeclKind::TypeDef { name, variants, .. } => add_type(n, name@, variants@),
            _ => n,
        })
    }
}

/// The names of the types a program declares: for each variant name the
/// last type declaring it, for each type name its last declaration's
/// variants.
pub open spec fn program_names(ds: Seq<Decl>) -> ExhNames {
    names_after(ds, ExhNames { owners: Map::empty(), adts: Map::empty() })
}

/// Among `vs`, some variant named `k` has no later variant of that name.
proof fn lemma_last_named(vs: Seq<VariantInfo>, k: Seq<char>)
    requires
        named_among(vs, vs.len() as int, k),
    ensures
        exists|i: int| 0 <= i < vs.len() && vs[i].name@ == k
            && !named_among(vs.subrange(i + 1, vs.len() as int), vs.len() - i - 1, #[trigger] vs[i].name@),
    decreases vs.len(),
{
    let n = vs.len() as int;
    if vs[n - 1].name@ == k {
        let i = n - 1;
        assert(!named_among(vs.subrange(i + 1, n), 0, vs[i].name@));
    } else {
        let a = choose|a: int| 0 <= a < n && #[trigger] vs[a].name@ == k;
        let w = vs.drop_last();
        assert(w[a] == vs[a]);
        assert(named_among(w, w.len() as int, k));
        lemma_last_named(w, k);
        let i = choose|i: int| 0 <= i < w.len() && w[i].name@ == k
            && !named_among(w.subrange(i + 1, w.len() as int), w.len() - i - 1, #[trigger] w[i].name@);
        assert(vs[i] == w[i]);
        let tail = vs.subrange(i + 1, n);
        assert forall|b: int| 0 <= b < n - i - 1 implies #[trigger] tail[b].name@ != k by {
            if b < n - i - 2 {
                assert(tail[b] == w.subrange(i + 1, w.len() as int)[b]);
            } else {
                assert(tail[b] == vs[n - 1]);
            }
        }
    }
}

/// The type of a literal.
pub open spec fn lit_type(v: LitValue) -> TyV {
    match v {
        LitValue::Int(_) => TyV::Int,
        LitValue::Float(_) => TyV::Float,
        LitValue::String(_) => TyV::String,
        LitValue::Bool(_) => TyV::Bool,
        LitValue::Unit => TyV::Unit,
    }
}

/// Whether one of `tps` is `name`.
pub open spec fn names_param(tps: Seq<String>, name: Seq<char>) -> bool {
    exists|k: int| 0 <= k < tps.len() && #[trigger] tps[k]@ == name
}

/// The builtin type called `name`, if there is one.
pub open spec fn builtin_named(name: Seq<char>) -> Option<TyV> {
    if name == "Int"@ {
        Some(TyV::Int)
    } else if name == "Float"@ {
        Some(TyV::Float)
    } else if name == "Bool"@ {
        Some(TyV::Bool)
    } else if name == "String"@ {
        Some(TyV::String)
    } else if name == "Unit"@ {
        Some(TyV::Unit)
    } else {
        None
    }
}

/// `count` fresh type variables, numbered on from `n0`.
pub open spec fn fresh_seq(n0: u32, count: nat) -> Seq<TyV> {
    Seq::new(count, |k: int| TyV::Var(nth_fresh(n0, k as nat)))
}

/// `t` has the shape that annotation `ann` denotes, with `tps` the type
/// parameters in scope and `adts` the declared types: a parameter is a
/// variable, a builtin type itself, a declared type applied to as many
/// arguments as it has parameters, `Option`, `Result` and `List` with their
/// arguments (with `Unit` for each when the count is wrong), and a function
/// type with its parameter and return types; an unknown name is `Unit`.
pub open spec fn ann_shape(t: TyV, ann: TypeAnnotation, tps: Seq<String>, adts: Map<Seq<char>, AdtInfo>) -> bool
    decreases ann,
{
    match ann.kind {
        TypeKind::Name { name } => {
            if names_param(tps, name@) {
                t is Var
            } else if builtin_named(name@) is Some {
                t == builtin_named(name@)->0
            } else if adts.contains_key(name@) {
                t matches TyV::ADT(n, ts) && n == name@ && ts.len() == adts[name@].type_params@.len()
            } else {
                t == TyV::Unit
            }
        }
        TypeKind::App { name, args } => {
            if name@ == "Option"@ {
                if args@.len() == 1 {
                    t matches TyV::Option(i) && ann_shape(*i, args@[0], tps, adts)
                } else {
                    t == TyV::Option(Box::new(TyV::Unit))
                }
            } else if name@ == "Result"@ {
                if args@.len() == 2 {
                    t matches TyV::Result(o, e) && ann_shape(*o, args@[0], tps, adts) && ann_shape(*e, args@[1], tps, adts)
                } else {
                    t == TyV::Result(Box::new(TyV::Unit), Box::new(TyV::Unit))
                }
            } else if name@ == "List"@ {
                if args@.len() == 1 {
                    t matches TyV::List(i) && ann_shape(*i, args@[0], tps, adts)
                } else {
                    t == TyV::List(Box::new(TyV::Unit))
                }
            } else if adts.contains_key(name@) {
                t matches TyV::ADT(n, ts) && n == name@ && ts.len() == args@.len()
                    && forall|k: int| 0 <= k < args@.len() ==> ann_shape(#[trigger] ts[k], args@[k], tps, adts)
            } else {
                t == TyV::Unit
            }
        }
        TypeKind::Fn { params, ret } => {
            t matches TyV::Fun(ps, r) && ps.len() == params@.len()
                && (forall|k: int| 0 <= k < params@.len() ==> ann_shape(#[trigger] ps[k], params@[k], tps, adts))
                && ann_shape(*r, *ret, tps, adts)
        }
    }
}

/// The instance of scheme `s` whose quantified variables are replaced,
/// in order, by the fresh variables numbered on from `n0`.
pub open spec fn instance_of(s: TypeScheme, n0: u32) -> TyV {
    subst_ty(s.ty@, Seq::new(s.vars@.len(), |k: int| (s.vars@[k].0, TyV::Var(nth_fresh(n0, k as nat)))))
}

/// What a well-typed binary operation yields: arithmetic a number (or a
/// variable not yet known), `++` a `String`, comparisons and the logical
/// operators a `Bool`.
pub open spec fn binop_yields(op: BinOp, t: TyV) -> bool {
    match op {
        BinOp::Add | BinOp::Sub | BinOp::Mul | BinOp::Div | BinOp::Mod => t is Int || t is Float || t is Var,
        BinOp::Concat => t == TyV::String,
        _ => t == TyV::Bool,
    }
}

/// The outer form that the syntax of `e` fixes for any type inferred for
/// it: a literal's own type, `String` for `++`, `Bool` for comparisons,
/// logical operators and `!`, a list type for a list literal, `Option`,
/// `Result` or a declared type for a variant construction, `Unit` for an
/// empty block; a let, a block, an if and a match take it from the body,
/// the last expression, a branch or an arm. Identifiers, calls, arithmetic,
/// negation and matches without arms leave it open.
pub open spec fn shape_of(e: Expr, t: TyV) -> bool
    decreases e,
{
    match e.kind {
        ExprKind::Literal { value } => t == lit_type(value),
        ExprKind::BinaryOp { op, .. } => match op {
            BinOp::Add | BinOp::Sub | BinOp::Mul | BinOp::Div | BinOp::Mod => true,
            BinOp::Concat => t == TyV::String,
            _ => t == TyV::Bool,
        },
        ExprKind::UnaryOp { op, .. } => match op {
            UnOp::Not => t == TyV::Bool,
            UnOp::Neg => true,
        },
        ExprKind::ListLiteral { .. } => t is List,
        ExprKind::VariantConstruct { name, .. } => {
            if name@ == "Some"@ || name@ == "None"@ {
                t is Option
            } else if name@ == "Ok"@ || name@ == "Err"@ {
                t is Result
            } else {
                t is ADT
            }
        },
        ExprKind::LetExpr { body, .. } => shape_of(*body, t),
        ExprKind::Block { exprs } => if exprs@.len() == 0 {
            t == TyV::Unit
        } else {
            shape_of(exprs@.last(), t)
        },
        ExprKind::IfElse { then_branch, else_branch, .. } => shape_of(*then_branch, t) || shape_of(*else_branch, t),
        ExprKind::Match { arms, .. } => arms@.len() == 0
            || exists|k: int| 0 <= k < arms@.len() && shape_of(#[trigger] arms@[k].body, t),
        ExprKind::Ident { .. } | ExprKind::FnCall { .. } => true,
        ExprKind::Error => false,
    }
}

/// Resolving a type keeps the outer form its expression fixes.
proof fn lemma_shape_resolved(e: Expr, t: TyV, table: UnificationTable)
    requires
        table.wf(),
        shape_of(e, t),
    ensures
        shape_of(e, table.resolved(t)),
    decreases e,
{
    match e.kind {
        ExprKind::LetExpr { body, .. } => lemma_shape_resolved(*body, t, table),
        ExprKind::Block { exprs } => {
            if exprs@.len() > 0 {
                assert(decreases_to!(e => exprs@.last()));
                lemma_shape_resolved(exprs@.last(), t, table);
            }
        },
        ExprKind::IfElse { then_branch, else_branch, .. } => {
            if shape_of(*then_branch, t) {
                lemma_shape_resolved(*then_branch, t, table);
            } else {
                lemma_shape_resolved(*else_branch, t, table);
            }
        },
        ExprKind::Match { arms, .. } => {
            if arms@.len() > 0 {
                let k = choose|k: int| 0 <= k < arms@.len() && shape_of(#[trigger] arms@[k].body, t);
                assert(decreases_to!(e => arms@[k]));
                lemma_shape_resolved(arms@[k].body, t, table);
            }
        },
        _ => {},
    }
}

/// The variants every program has: those of `Option` and `Result`.
pub open spec fn builtin_variant(n: Seq<char>) -> bool {
    n == "Some"@ || n == "None"@ || n == "Ok"@ || n == "Err"@
}

/// Expressions whose type inference always succeeds, whatever the
/// environment: literals, list literals, blocks that are empty or end in
/// such an expression, lets whose value and body are such expressions,
/// matches on such a scrutinee with no arms or with such an arm body, and
/// `None`, or `Some`, `Ok` and `Err` of such an expression.
pub open spec fn always_typed(e: Expr) -> bool
    decreases e,
{
    match e.kind {
        ExprKind::Literal { .. } | ExprKind::ListLiteral { .. } => true,
        ExprKind::Block { exprs } => exprs@.len() == 0 || always_typed(exprs@.last()),
        ExprKind::LetExpr { value, body, .. } => always_typed(*value) && always_typed(*body),
        ExprKind::Match { scrutinee, arms } => always_typed(*scrutinee)
            && (arms@.len() == 0 || exists|k: int| 0 <= k < arms@.len() && always_typed(#[trigger] arms@[k].body)),
        ExprKind::VariantConstruct { name, args } => (name@ == "None"@ && args@.len() == 0)
            || ((name@ == "Some"@ || name@ == "Ok"@ || name@ == "Err"@) && args@.len() == 1 && always_typed(args@[0])),
        _ => false,
    }
}

/// `b` is `a` with `name` (re)bound in the innermost scope.
pub open spec fn rebinds(a: Seq<Map<Seq<char>, TypeScheme>>, b: Seq<Map<Seq<char>, TypeScheme>>, name: Seq<char>) -> bool {
    &&& a.len() > 0
    &&& b.len() == a.len()
    &&& b.last().contains_key(name)
    &&& b == a.update(a.len() - 1, a.last().insert(name, b.last()[name]))
}

/// The type of a binary operation on operands of types `a` and `b` that
/// are known outright: arithmetic on two equal numeric types gives that
/// type, `++` on two strings a `String`, comparisons of equal types and
/// logical operators on two booleans a `Bool`; `None` when they do not fit.
pub open spec fn known_binop(op: BinOp, a: TyV, b: TyV) -> Option<TyV> {
    match op {
        BinOp::Add | BinOp::Sub | BinOp::Mul | BinOp::Div | BinOp::Mod =>
            if a == b && (a is Int || a is Float) { Some(a) } else { None },
        BinOp::Concat => if a == TyV::String && b == TyV::String { Some(TyV::String) } else { None },
        BinOp::And | BinOp::Or => if a == TyV::Bool && b == TyV::Bool { Some(TyV::Bool) } else { None },
        _ => if a == b { Some(TyV::Bool) } else { None },
    }
}

/// Annotation `ann` names only types in scope (`tps` as parameters, the
/// builtins, `adts` as declared types) and gives `Option`, `Result` and
/// `List` the right number of arguments.
pub open spec fn ann_valid(ann: TypeAnnotation, tps: Seq<String>, adts: Map<Seq<char>, AdtInfo>) -> bool
    decreases ann,
{
    match ann.kind {
        TypeKind::Name { name } => names_param(tps, name@) || builtin_named(name@) is Some || adts.contains_key(name@),
        TypeKind::App { name, args } => {
            &&& forall|k: int| 0 <= k < args@.len() ==> ann_valid(#[trigger] args@[k], tps, adts)
            &&& if name@ == "Option"@ || name@ == "List"@ {
                args@.len() == 1
            } else if name@ == "Result"@ {
                args@.len() == 2
            } else {
                adts.contains_key(name@)
            }
        }
        TypeKind::Fn { params, ret } => (forall|k: int| 0 <= k < params@.len() ==> ann_valid(#[trigger] params@[k], tps, adts))
            && ann_valid(*ret, tps, adts),
    }
}

/// `b` is `a` with one more error diagnostic at the end, of code `code`,
/// message `msg` and span `span`.
pub open spec fn appends_error(a: Seq<Diagnostic>, b: Seq<Diagnostic>, code: Seq<char>, msg: Seq<char>, span: Span) -> bool {
    &&& b == a.push(b.last())
    &&& b.last().code.0@ == code
    &&& b.last().severity == Severity::Error
    &&& b.last().message@ == msg
    &&& b.last().span == span
}

/// The E0206 report for a binary operation whose operand types `a` and `b`
/// are known outright and do not fit it (see [`known_binop`]): its message
/// and span. Mismatched operands of arithmetic or a comparison are reported
/// at the operation; equal non-numeric operands of arithmetic likewise; for
/// `++`, `&&` and `||` the first operand of the wrong type is reported at
/// that operand.
pub open spec fn operand_error(op: BinOp, a: TyV, b: TyV, span: Span, lspan: Span, rspan: Span) -> (Seq<char>, Span) {
    let sym = binop_text(op);
    match op {
        BinOp::Add | BinOp::Sub | BinOp::Mul | BinOp::Div | BinOp::Mod => if a != b {
            ("operator `"@ + sym + "` requires "@ + "matching types, found `"@ + display(a) + "` and `"@ + display(b) + "`"@, span)
        } else {
            ("operator `"@ + sym + "` requires numeric types, found `"@ + display(a) + "`"@, span)
        },
        BinOp::Concat => if a != TyV::String {
            ("operator `"@ + "++"@ + "` requires "@ + "String, found `"@ + display(a) + "`"@ + ""@, lspan)
        } else {
            ("operator `"@ + "++"@ + "` requires "@ + "String, found `"@ + display(b) + "`"@ + ""@, rspan)
        },
        BinOp::And | BinOp::Or => if a != TyV::Bool {
            ("operator `"@ + sym + "` requires "@ + "Bool, found `"@ + display(a) + "`"@ + ""@, lspan)
        } else {
            ("operator `"@ + sym + "` requires "@ + "Bool, found `"@ + display(b) + "`"@ + ""@, rspan)
        },
        _ => ("operator `"@ + sym + "` requires "@ + "matching types, found `"@ + display(a) + "` and `"@ + display(b) + "`"@, span),
    }
}

/// A type with nothing inside it.
pub open spec fn is_base(t: TyV) -> bool {
    t is Int || t is Float || t is Bool || t is String || t is Unit
}

/// What checking a function whose body has the base type `found` against
/// its registered return type `ret`, a type without type variables, adds to
/// the diagnostics `a`: nothing when they are equal; else an E0200 naming the function when
/// the return type was declared, an E0205 otherwise, at the body's span.
pub open spec fn body_checked(a: Seq<Diagnostic>, b: Seq<Diagnostic>, name: Seq<char>, declared: bool,
    ret: TyV, found: TyV, span: Span) -> bool
{
    if ret == found {
        b == a
    } else if declared {
        appends_error(a, b, "E0200"@, "type mismatch in function `"@ + name + "`: expected `"@ + display(ret)
            + "`, found `"@ + display(found) + "`"@, span)
    } else {
        appends_error(a, b, "E0205"@, "cannot unify `"@ + display(ret) + "` with `"@ + display(found) + "`"@, span)
    }
}

/// The base type that an annotation names, if it is one of the builtin
/// type names.
pub open spec fn base_ann(a: Option<TypeAnnotation>) -> Option<TyV> {
    match a {
        Some(ann) => match ann.kind {
            TypeKind::Name { name } => builtin_named(name@),
            _ => None,
        },
        None => None,
    }
}

/// The parameter types and return type of a function whose parameters and
/// return type are all annotated with builtin type names; none otherwise.
pub open spec fn simple_sig(params: Seq<Param>, ret: Option<TypeAnnotation>) -> Option<(Seq<TyV>, TyV)> {
    if (forall|k: int| 0 <= k < params.len() ==> base_ann(#[trigger] params[k].type_annotation) is Some)
        && base_ann(ret) is Some {
        Some((Seq::new(params.len(), |k: int| base_ann(params[k].type_annotation)->0), base_ann(ret)->0))
    } else {
        None
    }
}

/// The name a declaration binds.
pub open spec fn decl_name(d: Decl) -> Seq<char> {
    match d.kind {
        DeclKind::FnDef { name, .. } => name@,
        DeclKind::TypeDef { name, .. } => name@,
        DeclKind::LetDef { name, .. } => name@,
    }
}

/// No function of `ds` shares its name with another function or `let` of
/// `ds`.
pub open spec fn fn_names_unique(ds: Seq<Decl>) -> bool {
    forall|j: int, k: int| #![trigger ds[j], ds[k]]
        0 <= j < ds.len() && 0 <= k < ds.len() && j != k && ds[j].kind is FnDef && !(ds[k].kind is TypeDef)
            ==> decl_name(ds[j]) != decl_name(ds[k])
}

/// The names of `ctx` that stay known at a base type once the functions of
/// `ds` are registered: all but the functions' names.
pub open spec fn without_fns(ctx: Map<Seq<char>, TyV>, ds: Seq<Decl>) -> Map<Seq<char>, TyV>
    decreases ds.len(),
{
    if ds.len() == 0 {
        ctx
    } else {
        let c = without_fns(ctx, ds.drop_last());
        if ds.last().kind is FnDef { c.remove(decl_name(ds.last())) } else { c }
    }
}

/// The report of checking a function named `name`, declared to return `ret`,
/// whose body has type `found`, at the body's span `span`: nothing when
/// they are equal, else an E0200.
pub open spec fn body_report(name: Seq<char>, ret: TyV, found: TyV, span: Span) -> Seq<DiagV> {
    if ret == found {
        seq![]
    } else {
        seq![DiagV { code: "E0200"@, message: "type mismatch in function `"@ + name + "`: expected `"@ + display(ret)
            + "`, found `"@ + display(found) + "`"@, span }]
    }
}

/// A declared function's body check adds what [`body_report`] gives.
pub proof fn lemma_body_checked_grows(a: Seq<Diagnostic>, b: Seq<Diagnostic>, name: Seq<char>, ret: TyV, found: TyV, span: Span)
    requires
        body_checked(a, b, name, true, ret, found, span),
    ensures
        grows_by(a, b, body_report(name, ret, found, span)),
{
    if ret == found {
        assert(b.subrange(a.len() as int, b.len() as int) =~= Seq::<Diagnostic>::empty());
        assert(dviews(b.subrange(a.len() as int, b.len() as int)) =~= Seq::<DiagV>::empty());
        assert(b.subrange(0, a.len() as int) =~= a);
    } else {
        assert(b.subrange(0, a.len() as int) =~= a);
        assert(b.subrange(a.len() as int, b.len() as int) =~= seq![b.last()]);
        assert(dviews(seq![b.last()]) =~= seq![crate::parser::dview(b.last())]);
    }
}

/// The report of checking a value of type `found` against the builtin type
/// `ann` it was annotated with, at the value's span `span`: nothing when
/// they are equal, else an E0200.
pub open spec fn ann_report(ann: TyV, found: TyV, span: Span) -> Seq<DiagV> {
    if ann == found {
        seq![]
    } else {
        seq![DiagV { code: "E0200"@, message: "type mismatch: expected `"@ + display(ann) + "`, found `"@ + display(found) + "`"@,
            span }]
    }
}

/// What a top-level `let` with the annotation `ann` (none, or a builtin
/// type name) whose value is [`closed_in`] `ctx` reports: the value's
/// reports, then the annotation's ([`ann_report`]).
pub open spec fn let_reports(ctx: Map<Seq<char>, TyV>, ann: Option<TypeAnnotation>, value: Expr) -> Seq<DiagV> {
    let res = ops_in(ctx, value);
    match (base_ann(ann), res.0) {
        (Some(a), Some(t)) => res.1 + ann_report(a, t, value.span),
        _ => res.1,
    }
}

/// A `let` expression annotated with a builtin type checks its value
/// against it: when the value's type differs from the annotation, an E0200
/// "type mismatch: expected `A`, found `T`" at the value follows the value's
/// own reports and precedes the body's; when they are the same, nothing is
/// reported between them.
pub proof fn lemma_let_annotation_checked(ctx: Map<Seq<char>, TyV>, e: Expr)
    requires
        closed_in(ctx, e),
        e.kind is LetExpr,
        base_ann(e.kind->LetExpr_type_annotation) is Some,
        ops_in(ctx, *e.kind->LetExpr_value).0 is Some,
    ensures
        ({
            let value = *e.kind->LetExpr_value;
            let a = base_ann(e.kind->LetExpr_type_annotation)->0;
            let t = ops_in(ctx, value).0->0;
            let rb = ops_in(ctx.insert(e.kind->LetExpr_name@, t), *e.kind->LetExpr_body);
            &&& ops_in(ctx, e).0 == rb.0
            &&& a != t ==> ops_in(ctx, e).1 == ops_in(ctx, value).1 + seq![DiagV { code: "E0200"@,
                message: "type mismatch: expected `"@ + display(a) + "`, found `"@ + display(t) + "`"@, span: value.span }] + rb.1
            &&& a == t ==> ops_in(ctx, e).1 == ops_in(ctx, value).1 + rb.1
        }),
{
    let value = *e.kind->LetExpr_value;
    let t = ops_in(ctx, value).0->0;
    let a = base_ann(e.kind->LetExpr_type_annotation)->0;
    if a == t {
        assert(ops_in(ctx, value).1 + Seq::<DiagV>::empty() =~= ops_in(ctx, value).1);
    }
}

/// Checking the declarations `ds` in order, from the names `ctx0` known at
/// a base type: the names known afterwards, the inference reports in order,
/// and whether every declaration is a type definition whose fields are
/// builtin types ([`simple_variants`]), a `let` without annotation or
/// annotated with a builtin type name whose value is [`closed_in`] the
/// names known before it ([`let_reports`]), or a function with a
/// [`simple_sig`] whose body is closed in those names and its parameters.
/// A `let` whose value has a type makes its name known at that type; a
/// function's body is inferred ([`ops_in`]) and its type checked against the
/// declared return type ([`body_report`]).
pub open spec fn decls_known(ctx0: Map<Seq<char>, TyV>, ds: Seq<Decl>) -> (Map<Seq<char>, TyV>, Seq<DiagV>, bool)
    decreases ds.len(),
{
    if ds.len() == 0 {
        (ctx0, seq![], true)
    } else {
        let (ctx, d, ok) = decls_known(ctx0, ds.drop_last());
        let last = ds.last();
        if !ok {
            (ctx, d, false)
        } else if last.kind is TypeDef {
            (ctx, d, simple_variants(last.kind->TypeDef_variants@))
        } else if last.kind is LetDef && (last.kind->LetDef_type_annotation is None
            || base_ann(last.kind->LetDef_type_annotation) is Some) && closed_in(ctx, last.kind->LetDef_value) {
            let (t, dv) = ops_in(ctx, last.kind->LetDef_value);
            (match t {
                Some(ty) => ctx.insert(decl_name(last), ty),
                None => ctx,
            }, d + let_reports(ctx, last.kind->LetDef_type_annotation, last.kind->LetDef_value), true)
        } else if last.kind is FnDef && simple_sig(last.kind->FnDef_params@, last.kind->FnDef_return_type) is Some {
            let sig = simple_sig(last.kind->FnDef_params@, last.kind->FnDef_return_type)->0;
            let params = last.kind->FnDef_params@;
            let body = last.kind->FnDef_body;
            let cf = with_params(ctx, params, sig.0, params.len());
            if closed_in(cf, body) {
                let (bt, dv) = ops_in(cf, body);
                (ctx, d + dv + match bt {
                    Some(b) => body_report(decl_name(last), sig.1, b, body.span),
                    None => seq![],
                }, true)
            } else {
                (ctx, d, false)
            }
        } else {
            (ctx, d, false)
        }
    }
}

/// Every prefix of declarations that [`decls_known`] accepts is accepted,
/// and each of its type definitions has builtin field types.
pub proof fn lemma_decls_known_prefix(ctx0: Map<Seq<char>, TyV>, ds: Seq<Decl>, k: int)
    requires
        decls_known(ctx0, ds).2,
        0 <= k <= ds.len(),
    ensures
        decls_known(ctx0, ds.subrange(0, k)).2,
        k < ds.len() && ds[k].kind is TypeDef ==> simple_variants(ds[k].kind->TypeDef_variants@),
        k < ds.len() && ds[k].kind is FnDef ==> simple_sig(ds[k].kind->FnDef_params@, ds[k].kind->FnDef_return_type) is Some,
    decreases ds.len(),
{
    if k < ds.len() {
        lemma_decls_known_prefix(ctx0, ds.drop_last(), k);
        assert(ds.drop_last().subrange(0, k) =~= ds.subrange(0, k));
        if k < ds.len() - 1 {
            assert(ds.drop_last()[k] == ds[k]);
        }
    } else {
        assert(ds.subrange(0, k) =~= ds);
    }
}

/// Binding a name in the innermost scope finds it there and leaves every
/// other name as it was.
pub proof fn lemma_lookup_bind(sc: Seq<Map<Seq<char>, TypeScheme>>, x: Seq<char>, s: TypeScheme)
    requires
        sc.len() > 0,
    ensures
        forall|n: Seq<char>| #[trigger] lookup_scopes(sc.update(sc.len() - 1, sc.last().insert(x, s)), n)
            == if n == x { Some(s) } else { lookup_scopes(sc, n) },
{
    let sc2 = sc.update(sc.len() - 1, sc.last().insert(x, s));
    assert(sc2.drop_last() =~= sc.drop_last());
    assert forall|n: Seq<char>| #[trigger] lookup_scopes(sc2, n) == if n == x { Some(s) } else { lookup_scopes(sc, n) } by {
        assert(sc2.last() == sc.last().insert(x, s));
    }
}

/// Every field of every variant is annotated with a builtin type name.
pub open spec fn simple_variants(variants: Seq<Variant>) -> bool {
    forall|i: int, j: int| 0 <= i < variants.len() && 0 <= j < variants[i].fields@.len()
        ==> base_ann(Some(#[trigger] variants[i].fields@[j])) is Some
}

/// Sub-patterns that are each a name or `_`, with no name twice.
pub open spec fn flat_fields(fields: Seq<Pattern>) -> bool {
    &&& forall|k: int| 0 <= k < fields.len() ==> (#[trigger] fields[k]).kind is Ident || fields[k].kind is Wildcard
    &&& forall|j: int, k: int| #![trigger fields[j], fields[k]] 0 <= j < k < fields.len() && fields[j].kind is Ident
        && fields[k].kind is Ident ==> fields[j].kind->Ident_name@ != fields[k].kind->Ident_name@
}

/// Every one of `args` is [`closed_in`] `ctx` and every one of `fts` is a
/// base type.
pub open spec fn closed_args_base_fields(ctx: Map<Seq<char>, TyV>, args: Seq<Expr>, fts: Seq<TyV>) -> bool {
    &&& args.len() == fts.len()
    &&& forall|k: int| 0 <= k < args.len() ==> closed_in(ctx, #[trigger] args[k]) && is_base(fts[k])
}

/// The reports of inferring the first `n` arguments `args` of a variant
/// constructor and checking them against their field types `fts`: each
/// argument's own reports ([`ops_in`]), then an E0200 at the argument when
/// its type differs from its field type.
pub open spec fn arg_reports(ctx: Map<Seq<char>, TyV>, args: Seq<Expr>, fts: Seq<TyV>, n: nat) -> Seq<DiagV>
    decreases n,
{
    if n == 0 {
        seq![]
    } else {
        let k = n - 1;
        let (t, d) = ops_in(ctx, args[k]);
        arg_reports(ctx, args, fts, (n - 1) as nat) + d + match t {
            Some(a) => if a == fts[k] {
                Seq::<DiagV>::empty()
            } else {
                seq![DiagV { code: "E0200"@, message: "type mismatch in variant constructor: expected `"@ + display(fts[k])
                    + "`, found `"@ + display(a) + "`"@, span: args[k].span }]
            },
            None => Seq::<DiagV>::empty(),
        }
    }
}

/// The next `k` fresh variables of `t` are unbound and differ from `x`.
pub open spec fn unbound_fresh(t: UnificationTable, x: u32, k: nat) -> bool {
    forall|j: nat| j < k ==> !t.map().contains_key(#[trigger] nth_fresh(t.next(), j)) && nth_fresh(t.next(), j) != x
}

/// An expression built from literals with unary and binary operators only.
pub open spec fn closed_ops(e: Expr) -> bool
    decreases e,
{
    match e.kind {
        ExprKind::Literal { .. } => true,
        ExprKind::UnaryOp { operand, .. } => closed_ops(*operand),
        ExprKind::BinaryOp { lhs, rhs, .. } => closed_ops(*lhs) && closed_ops(*rhs),
        _ => false,
    }
}

/// The value of an inferred type, if any.
pub open spec fn opt_tyv(r: Option<Type>) -> Option<TyV> {
    match r {
        Some(t) => Some(t@),
        None => None,
    }
}

/// Type inference of an expression built from literals and operators: its
/// type (none on an error) and the E0206 reports, in order. The left
/// operand is inferred first; an operand without a type ends the operation
/// silently; operands of known types that do not fit are reported as
/// [`operand_error`] says, `!` on a non-boolean and `-` on a non-number at
/// the operation.
pub open spec fn ops_infer(e: Expr) -> (Option<TyV>, Seq<DiagV>)
    decreases e,
{
    match e.kind {
        ExprKind::Literal { value } => (Some(lit_type(value)), seq![]),
        ExprKind::BinaryOp { op, lhs, rhs } => {
            let (a, da) = ops_infer(*lhs);
            match a {
                None => (None, da),
                Some(ta) => {
                    let (b, db) = ops_infer(*rhs);
                    match b {
                        None => (None, da + db),
                        Some(tb) => match known_binop(op, ta, tb) {
                            Some(u) => (Some(u), da + db),
                            None => {
                                let (m, sp) = operand_error(op, ta, tb, e.span, lhs.span, rhs.span);
                                (None, (da + db).push(DiagV { code: "E0206"@, message: m, span: sp }))
                            },
                        },
                    }
                },
            }
        },
        ExprKind::UnaryOp { op, operand } => {
            let (a, da) = ops_infer(*operand);
            match a {
                None => (None, da),
                Some(ta) => match op {
                    UnOp::Not => if ta == TyV::Bool {
                        (Some(TyV::Bool), da)
                    } else {
                        (None, da.push(DiagV { code: "E0206"@,
                            message: "operator `"@ + "!"@ + "` requires "@ + "Bool, found `"@ + display(ta) + "`"@ + ""@, span: e.span }))
                    },
                    UnOp::Neg => if ta is Int || ta is Float {
                        (Some(ta), da)
                    } else {
                        (None, da.push(DiagV { code: "E0206"@,
                            message: "operator `"@ + "-"@ + "` requires "@ + "numeric type, found `"@ + display(ta) + "`"@ + ""@, span: e.span }))
                    },
                },
            }
        },
        _ => (None, seq![]),
    }
}

/// The names that `scopes` bind to a monomorphic base type, with that type.
pub open spec fn known_names(scopes: Seq<Map<Seq<char>, TypeScheme>>) -> Map<Seq<char>, TyV> {
    Map::new(
        |n: Seq<char>| lookup_scopes(scopes, n) matches Some(s) && s.vars@.len() == 0 && is_base(s.ty@),
        |n: Seq<char>| lookup_scopes(scopes, n)->0.ty@,
    )
}

/// An expression built from literals, names that `ctx` gives a base type,
/// unary and binary operators, blocks, `if` expressions, `let` expressions
/// without annotation (whose body may use the bound name at the value's
/// type) and `match` expressions with at least one arm whose patterns are
/// literals, names or `_` ([`closed_arms`]), of such expressions.
pub open spec fn closed_in(ctx: Map<Seq<char>, TyV>, e: Expr) -> bool
    decreases e, 1nat,
{
    match e.kind {
        ExprKind::Literal { .. } => true,
        ExprKind::Ident { name } => ctx.contains_key(name@),
        ExprKind::UnaryOp { operand, .. } => closed_in(ctx, *operand),
        ExprKind::BinaryOp { lhs, rhs, .. } => closed_in(ctx, *lhs) && closed_in(ctx, *rhs),
        ExprKind::Block { exprs } => closed_all(ctx, exprs@),
        ExprKind::IfElse { condition, then_branch, else_branch } =>
            closed_in(ctx, *condition) && closed_in(ctx, *then_branch) && closed_in(ctx, *else_branch),
        ExprKind::LetExpr { name, type_annotation, value, body } =>
            (type_annotation is None || base_ann(type_annotation) is Some) && closed_in(ctx, *value)
            && (ops_in(ctx, *value).0 matches Some(tv) ==> closed_in(ctx.insert(name@, tv), *body)),
        ExprKind::Match { scrutinee, arms } => arms@.len() > 0 && closed_in(ctx, *scrutinee)
            && (ops_in(ctx, *scrutinee).0 matches Some(ts) ==> closed_arms(ctx, ts, arms@)),
        _ => false,
    }
}

/// A pattern that is a literal, a name or `_`.
pub open spec fn flat_pattern(p: Pattern) -> bool {
    p.kind is Literal || p.kind is Ident || p.kind is Wildcard
}

/// The names known in a match arm whose pattern `p` is matched against a
/// value of type `ts`: a name pattern is known at that type.
pub open spec fn arm_ctx(ctx: Map<Seq<char>, TyV>, p: Pattern, ts: TyV) -> Map<Seq<char>, TyV> {
    match p.kind {
        PatternKind::Ident { name } => ctx.insert(name@, ts),
        _ => ctx,
    }
}

/// Each arm of `arms` has a [`flat_pattern`] and a body [`closed_in`] its
/// [`arm_ctx`], for a scrutinee of type `ts`.
pub open spec fn closed_arms(ctx: Map<Seq<char>, TyV>, ts: TyV, arms: Seq<MatchArm>) -> bool
    decreases arms, 0nat,
{
    arms.len() == 0 || (closed_arms(ctx, ts, arms.drop_last()) && flat_pattern(arms.last().pattern)
        && closed_in(arm_ctx(ctx, arms.last().pattern, ts), arms.last().body))
}

/// The report of matching the pattern `p` against a scrutinee of type
/// `ts`: an E0200 at the pattern when it is a literal of another type.
pub open spec fn pattern_report(p: Pattern, ts: TyV) -> Seq<DiagV> {
    match p.kind {
        PatternKind::Literal { value } => if lit_type(value) == ts {
            seq![]
        } else {
            seq![DiagV { code: "E0200"@, message: "pattern type `"@ + display(lit_type(value))
                + "` does not match scrutinee type `"@ + display(ts) + "`"@, span: p.span }]
        },
        _ => seq![],
    }
}

/// The arms `arms` of a match on a scrutinee of type `ts` inferred in turn:
/// the type of the first arm whose body has one, and the reports: each
/// pattern's ([`pattern_report`]), each body's ([`ops_in`]), and an E0200
/// at a body whose type differs from that first type.
pub open spec fn ops_arms(ctx: Map<Seq<char>, TyV>, ts: TyV, arms: Seq<MatchArm>) -> (Option<TyV>, Seq<DiagV>)
    decreases arms, 0nat,
{
    if arms.len() == 0 {
        (None, seq![])
    } else {
        let (rt, d) = ops_arms(ctx, ts, arms.drop_last());
        let a = arms.last();
        let (bt, db) = ops_in(arm_ctx(ctx, a.pattern, ts), a.body);
        let d2 = d + pattern_report(a.pattern, ts) + db;
        match (rt, bt) {
            (Some(r), Some(b)) => if r == b {
                (Some(r), d2)
            } else {
                (Some(r), d2.push(DiagV { code: "E0200"@, message: "match arms have incompatible types: `"@ + display(r)
                    + "` and `"@ + display(b) + "`"@, span: a.body.span }))
            },
            (None, Some(b)) => (Some(b), d2),
            (_, None) => (rt, d2),
        }
    }
}

/// Each arm of [`closed_arms`] is closed.
pub proof fn lemma_closed_arms_elem(ctx: Map<Seq<char>, TyV>, ts: TyV, arms: Seq<MatchArm>, k: int)
    requires
        closed_arms(ctx, ts, arms),
        0 <= k < arms.len(),
    ensures
        flat_pattern(arms[k].pattern),
        closed_in(arm_ctx(ctx, arms[k].pattern, ts), arms[k].body),
    decreases arms.len(),
{
    if k < arms.len() - 1 {
        lemma_closed_arms_elem(ctx, ts, arms.drop_last(), k);
    }
}

/// The type [`ops_arms`] gives is a base type.
pub proof fn lemma_ops_arms_base(ctx: Map<Seq<char>, TyV>, ts: TyV, arms: Seq<MatchArm>)
    requires
        base_ctx(ctx),
        is_base(ts),
    ensures
        ops_arms(ctx, ts, arms).0 matches Some(t) ==> is_base(t),
    decreases arms, 0nat,
{
    if arms.len() > 0 {
        lemma_ops_arms_base(ctx, ts, arms.drop_last());
        let a = arms.last();
        assert(base_ctx(arm_ctx(ctx, a.pattern, ts)));
        lemma_ops_in_base(arm_ctx(ctx, a.pattern, ts), a.body);
    }
}

/// Each of `es` is [`closed_in`] `ctx`.
pub open spec fn closed_all(ctx: Map<Seq<char>, TyV>, es: Seq<Expr>) -> bool
    decreases es, 0nat,
{
    es.len() == 0 || (closed_all(ctx, es.drop_last()) && closed_in(ctx, es.last()))
}

/// Type inference of an expression that is [`closed_in`] `ctx`: its type
/// (none on an error) and its E0206 and E0200 reports, in order. Literals
/// and names have their types; operators go as [`ops_infer`] says; a block
/// has the type of its last expression (`Unit` when empty) and the reports
/// of all; an `if` reports a condition that is not `Bool` and branches of
/// two different types (and then has none), else has its branches' type;
/// a `let` has the type of its body, read with the name bound at the
/// value's type; a `match` goes as [`ops_arms`] says.
pub open spec fn ops_in(ctx: Map<Seq<char>, TyV>, e: Expr) -> (Option<TyV>, Seq<DiagV>)
    decreases e, 1nat,
{
    match e.kind {
        ExprKind::Literal { value } => (Some(lit_type(value)), seq![]),
        ExprKind::Ident { name } => if ctx.contains_key(name@) { (Some(ctx[name@]), seq![]) } else { (None, seq![]) },
        ExprKind::BinaryOp { op, lhs, rhs } => {
            let (a, da) = ops_in(ctx, *lhs);
            match a {
                None => (None, da),
                Some(ta) => {
                    let (b, db) = ops_in(ctx, *rhs);
                    match b {
                        None => (None, da + db),
                        Some(tb) => match known_binop(op, ta, tb) {
                            Some(u) => (Some(u), da + db),
                            None => {
                                let (m, sp) = operand_error(op, ta, tb, e.span, lhs.span, rhs.span);
                                (None, (da + db).push(DiagV { code: "E0206"@, message: m, span: sp }))
                            },
                        },
                    }
                },
            }
        },
        ExprKind::UnaryOp { op, operand } => {
            let (a, da) = ops_in(ctx, *operand);
            match a {
                None => (None, da),
                Some(ta) => match op {
                    UnOp::Not => if ta == TyV::Bool {
                        (Some(TyV::Bool), da)
                    } else {
                        (None, da.push(DiagV { code: "E0206"@,
                            message: "operator `"@ + "!"@ + "` requires "@ + "Bool, found `"@ + display(ta) + "`"@ + ""@, span: e.span }))
                    },
                    UnOp::Neg => if ta is Int || ta is Float {
                        (Some(ta), da)
                    } else {
                        (None, da.push(DiagV { code: "E0206"@,
                            message: "operator `"@ + "-"@ + "` requires "@ + "numeric type, found `"@ + display(ta) + "`"@ + ""@, span: e.span }))
                    },
                },
            }
        },
        ExprKind::Block { exprs } => ops_seq(ctx, exprs@),
        ExprKind::IfElse { condition, then_branch, else_branch } => {
            let (c, dc) = ops_in(ctx, *condition);
            match c {
                None => (None, dc),
                Some(tc) => {
                    let d1 = if tc == TyV::Bool {
                        dc
                    } else {
                        dc.push(DiagV { code: "E0200"@, message: "if condition must be Bool, found `"@ + display(tc) + "`"@,
                            span: condition.span })
                    };
                    let (a, da) = ops_in(ctx, *then_branch);
                    let (b, db) = ops_in(ctx, *else_branch);
                    let d2 = d1 + da + db;
                    match (a, b) {
                        (Some(x), Some(y)) => if x == y {
                            (Some(x), d2)
                        } else {
                            (None, d2.push(DiagV { code: "E0200"@, message: "if branches have incompatible types: `"@
                                + display(x) + "` and `"@ + display(y) + "`"@, span: e.span }))
                        },
                        (Some(x), None) => (Some(x), d2),
                        (None, Some(y)) => (Some(y), d2),
                        (None, None) => (None, d2),
                    }
                },
            }
        },
        ExprKind::LetExpr { name, type_annotation, value, body } => {
            let (v, dv) = ops_in(ctx, *value);
            match v {
                None => (None, dv),
                Some(tv) => {
                    let da = match base_ann(type_annotation) {
                        Some(a) => ann_report(a, tv, value.span),
                        None => seq![],
                    };
                    let (b, db) = ops_in(ctx.insert(name@, tv), *body);
                    (b, dv + da + db)
                },
            }
        },
        ExprKind::Match { scrutinee, arms } => {
            let (sc, ds) = ops_in(ctx, *scrutinee);
            match sc {
                None => (None, ds),
                Some(ts) => {
                    let (rt, da) = ops_arms(ctx, ts, arms@);
                    (rt, ds + da)
                },
            }
        },
        _ => (None, seq![]),
    }
}

/// A block's expressions inferred in turn: the last one's type (`Unit` when
/// there is none) and the reports of all.
pub open spec fn ops_seq(ctx: Map<Seq<char>, TyV>, es: Seq<Expr>) -> (Option<TyV>, Seq<DiagV>)
    decreases es, 0nat,
{
    if es.len() == 0 {
        (Some(TyV::Unit), seq![])
    } else {
        let (t, d) = ops_in(ctx, es.last());
        (t, ops_seq(ctx, es.drop_last()).1 + d)
    }
}

/// Each expression of a [`closed_all`] sequence is closed.
pub proof fn lemma_closed_all_elem(ctx: Map<Seq<char>, TyV>, es: Seq<Expr>, k: int)
    requires
        closed_all(ctx, es),
        0 <= k < es.len(),
    ensures
        closed_in(ctx, es[k]),
    decreases es.len(),
{
    if k < es.len() - 1 {
        lemma_closed_all_elem(ctx, es.drop_last(), k);
    }
}

/// `ctx` with the first `n` parameters `params` bound, in order, to the
/// types `tys`: a parameter of base type is known at that type, any other
/// is not known.
pub open spec fn with_params(ctx: Map<Seq<char>, TyV>, params: Seq<Param>, tys: Seq<TyV>, n: nat) -> Map<Seq<char>, TyV>
    decreases n,
{
    if n == 0 {
        ctx
    } else {
        let c = with_params(ctx, params, tys, (n - 1) as nat);
        let x = params[n - 1].name@;
        if is_base(tys[n - 1]) { c.insert(x, tys[n - 1]) } else { c.remove(x) }
    }
}

/// Binding a name in the innermost scope makes it known at its type when
/// that is a monomorphic base type, and unknown otherwise.
pub proof fn lemma_known_bind(sc: Seq<Map<Seq<char>, TypeScheme>>, x: Seq<char>, s: TypeScheme)
    requires
        sc.len() > 0,
    ensures
        known_names(sc.update(sc.len() - 1, sc.last().insert(x, s))) == if s.vars@.len() == 0 && is_base(s.ty@) {
            known_names(sc).insert(x, s.ty@)
        } else {
            known_names(sc).remove(x)
        },
{
    let sc2 = sc.update(sc.len() - 1, sc.last().insert(x, s));
    assert(sc2.drop_last() =~= sc.drop_last());
    assert forall|n: Seq<char>| #[trigger] lookup_scopes(sc2, n) == if n == x { Some(s) } else { lookup_scopes(sc, n) } by {
        assert(sc2.last() == sc.last().insert(x, s));
    }
    let k1 = known_names(sc2);
    let k0 = known_names(sc);
    if s.vars@.len() == 0 && is_base(s.ty@) {
        assert(k1 =~= k0.insert(x, s.ty@));
    } else {
        assert(k1 =~= k0.remove(x));
    }
}

/// Binding parameters keeps every known type a base type.
pub proof fn lemma_with_params_base(ctx: Map<Seq<char>, TyV>, params: Seq<Param>, tys: Seq<TyV>, n: nat)
    requires
        base_ctx(ctx),
    ensures
        base_ctx(with_params(ctx, params, tys, n)),
    decreases n,
{
    if n > 0 {
        lemma_with_params_base(ctx, params, tys, (n - 1) as nat);
    }
}

/// Pushing an empty scope changes no name's type.
pub proof fn lemma_known_push(sc: Seq<Map<Seq<char>, TypeScheme>>)
    ensures
        known_names(sc.push(Map::empty())) == known_names(sc),
{
    assert(sc.push(Map::empty()).drop_last() =~= sc);
    assert forall|n: Seq<char>| #[trigger] lookup_scopes(sc.push(Map::empty()), n) == lookup_scopes(sc, n) by {}
    assert(known_names(sc.push(Map::empty())) =~= known_names(sc));
}

/// Checking the top-level `let`s `ds` in turn, from the names `ctx0` known
/// at a base type: the names known afterwards, the inference reports
/// ([`ops_in`]) in order, and whether every declaration is a `let` without
/// annotation whose value is [`closed_in`] the names known before it. A
/// `let` whose value has a type makes its name known at that type.
pub open spec fn lets_known(ctx0: Map<Seq<char>, TyV>, ds: Seq<Decl>) -> (Map<Seq<char>, TyV>, Seq<DiagV>, bool)
    decreases ds.len(),
{
    if ds.len() == 0 {
        (ctx0, seq![], true)
    } else {
        let (ctx, d, ok) = lets_known(ctx0, ds.drop_last());
        let last = ds.last();
        if ok && last.kind is LetDef && last.kind->LetDef_type_annotation is None
            && closed_in(ctx, last.kind->LetDef_value) {
            let (t, dv) = ops_in(ctx, last.kind->LetDef_value);
            let ctx2 = match t {
                Some(ty) => ctx.insert(last.kind->LetDef_name@, ty),
                None => ctx,
            };
            (ctx2, d + dv, true)
        } else {
            (ctx, d, false)
        }
    }
}

/// Every declaration of a program that [`lets_known`] accepts is a `let`
/// without annotation, and so is every prefix of it accepted.
pub proof fn lemma_lets_known_prefix(ctx0: Map<Seq<char>, TyV>, ds: Seq<Decl>, k: int)
    requires
        lets_known(ctx0, ds).2,
        0 <= k <= ds.len(),
    ensures
        lets_known(ctx0, ds.subrange(0, k)).2,
        k < ds.len() ==> ds[k].kind is LetDef && ds[k].kind->LetDef_type_annotation is None,
    decreases ds.len(),
{
    if k == ds.len() {
        assert(ds.subrange(0, k) =~= ds);
    } else {
        assert(ds.drop_last().len() == ds.len() - 1);
        if k < ds.len() - 1 {
            lemma_lets_known_prefix(ctx0, ds.drop_last(), k);
            assert(ds.drop_last().subrange(0, k) =~= ds.subrange(0, k));
            assert(ds.drop_last()[k] == ds[k]);
        } else {
            assert(ds.subrange(0, k) =~= ds.drop_last());
        }
    }
}

/// Every type that `ctx` gives is a base type.
pub open spec fn base_ctx(ctx: Map<Seq<char>, TyV>) -> bool {
    forall|n: Seq<char>| ctx.contains_key(n) ==> is_base(#[trigger] ctx[n])
}

/// The names known in scopes have base types.
pub proof fn lemma_known_base(scopes: Seq<Map<Seq<char>, TypeScheme>>)
    ensures
        base_ctx(known_names(scopes)),
{
}

/// The type [`ops_in`] gives is a base type.
#[verifier::rlimit(100)]
pub proof fn lemma_ops_in_base(ctx: Map<Seq<char>, TyV>, e: Expr)
    requires
        base_ctx(ctx),
    ensures
        ops_in(ctx, e).0 matches Some(t) ==> is_base(t),
    decreases e, 1nat,
{
    match e.kind {
        ExprKind::BinaryOp { lhs, rhs, .. } => {
            lemma_ops_in_base(ctx, *lhs);
            lemma_ops_in_base(ctx, *rhs);
        },
        ExprKind::UnaryOp { operand, .. } => lemma_ops_in_base(ctx, *operand),
        ExprKind::Block { exprs } => lemma_ops_seq_base(ctx, exprs@),
        ExprKind::IfElse { condition, then_branch, else_branch } => {
            lemma_ops_in_base(ctx, *condition);
            lemma_ops_in_base(ctx, *then_branch);
            lemma_ops_in_base(ctx, *else_branch);
            let a = ops_in(ctx, *then_branch).0;
            let b = ops_in(ctx, *else_branch).0;
            assert(ops_in(ctx, e).0 is Some ==> ops_in(ctx, e).0 == a || ops_in(ctx, e).0 == b);
        },
        ExprKind::LetExpr { name, value, body, .. } => {
            lemma_ops_in_base(ctx, *value);
            if ops_in(ctx, *value).0 is Some {
                let tv = ops_in(ctx, *value).0->0;
                lemma_ops_in_base(ctx.insert(name@, tv), *body);
                assert(ops_in(ctx, e).0 == ops_in(ctx.insert(name@, tv), *body).0);
            }
        },
        ExprKind::Match { scrutinee, arms } => {
            lemma_ops_in_base(ctx, *scrutinee);
            if ops_in(ctx, *scrutinee).0 is Some {
                let ts = ops_in(ctx, *scrutinee).0->0;
                lemma_ops_arms_base(ctx, ts, arms@);
                assert(ops_in(ctx, e).0 == ops_arms(ctx, ts, arms@).0);
            }
        },
        _ => {},
    }
}

/// The type [`ops_seq`] gives is a base type.
pub proof fn lemma_ops_seq_base(ctx: Map<Seq<char>, TyV>, es: Seq<Expr>)
    requires
        base_ctx(ctx),
    ensures
        ops_seq(ctx, es).0 matches Some(t) ==> is_base(t),
    decreases es, 0nat,
{
    if es.len() > 0 {
        lemma_ops_in_base(ctx, es.last());
    }
}

/// Expressions of literals and operators are closed in any context, with
/// the same inference.
pub proof fn lemma_closed_in(ctx: Map<Seq<char>, TyV>, e: Expr)
    requires
        closed_ops(e),
    ensures
        closed_in(ctx, e),
        ops_in(ctx, e) == ops_infer(e),
    decreases e,
{
    match e.kind {
        ExprKind::BinaryOp { lhs, rhs, .. } => {
            lemma_closed_in(ctx, *lhs);
            lemma_closed_in(ctx, *rhs);
        },
        ExprKind::UnaryOp { operand, .. } => lemma_closed_in(ctx, *operand),
        _ => {},
    }
}

/// A `let` without a type annotation whose value is built from literals
/// and operators.
pub open spec fn closed_let(d: Decl) -> bool {
    match d.kind {
        DeclKind::LetDef { type_annotation, value, .. } => type_annotation is None && closed_ops(value),
        _ => false,
    }
}

/// Every declaration of `ds` is a [`closed_let`].
pub open spec fn closed_lets(ds: Seq<Decl>) -> bool
    decreases ds.len(),
{
    ds.len() == 0 || (closed_lets(ds.drop_last()) && closed_let(ds.last()))
}

/// Each declaration of [`closed_lets`] is a [`closed_let`].
pub proof fn lemma_closed_lets_elem(ds: Seq<Decl>, k: int)
    requires
        closed_lets(ds),
        0 <= k < ds.len(),
    ensures
        closed_let(ds[k]),
    decreases ds.len(),
{
    if k < ds.len() - 1 {
        lemma_closed_lets_elem(ds.drop_last(), k);
    }
}

/// The inference reports of the values of the `let`s `ds`, in order.
pub open spec fn lets_diags(ds: Seq<Decl>) -> Seq<DiagV>
    decreases ds.len(),
{
    if ds.len() == 0 {
        seq![]
    } else {
        lets_diags(ds.drop_last()) + ops_infer(ds.last().kind->LetDef_value).1
    }
}

/// `a` followed by `b` and `c`.
fn join3(a: &str, b: &String, c: &str) -> (r: String)
    ensures
        r@ == a@ + b@ + c@,
{
    cat(cat(owned(a), b.as_str()), c)
}

/// `a`, `b`, `c`, `d` and `e` in order.
fn join5(a: &str, b: &String, c: &str, d: &String, e: &str) -> (r: String)
    ensures
        r@ == a@ + b@ + c@ + d@ + e@,
{
    cat(cat(cat(cat(owned(a), b.as_str()), c), d.as_str()), e)
}

/// The type checker: the unification table, the type environment and the
/// diagnostics so far.
pub struct TypeChecker {
    table: UnificationTable,
    env: TypeEnv,
    diagnostics: Vec<Diagnostic>,
}

/// From `a` to `b` the checker only adds bindings to its table, keeps its
/// definitions, and adds only diagnostics with the checker's codes.
spec fn steps(a: TypeChecker, b: TypeChecker) -> bool {
    &&& extends(a.table.map(), b.table.map())
    &&& b.env.adt_defs@ == a.env.adt_defs@
    &&& b.env.variant_defs@ == a.env.variant_defs@
    &&& b.env.fn_effects@ == a.env.fn_effects@
    &&& (check_codes(a.diagnostics@) ==> check_codes(b.diagnostics@))
}

/// Same as [`steps`], but definitions may change (top-level work).
spec fn steps_top(a: TypeChecker, b: TypeChecker) -> bool {
    &&& extends(a.table.map(), b.table.map())
    &&& (check_codes(a.diagnostics@) ==> check_codes(b.diagnostics@))
    &&& b.env.scopes().len() == a.env.scopes().len()
}

/// `b` is `a` with one more error diagnostic at the end, of code `code`,
/// message `msg` and span `span`; the table and the environment are kept.
spec fn adds_error(a: TypeChecker, b: TypeChecker, code: Seq<char>, msg: Seq<char>, span: Span) -> bool {
    &&& b.table == a.table
    &&& b.env == a.env
    &&& b.diagnostics@ == a.diagnostics@.push(b.diagnostics@.last())
    &&& b.diagnostics@.last().code.0@ == code
    &&& b.diagnostics@.last().severity == Severity::Error
    &&& b.diagnostics@.last().message@ == msg
    &&& b.diagnostics@.last().span == span
}

/// The scopes `b` differ from `a` at most in the innermost one.
pub open spec fn same_outer(a: Seq<Map<Seq<char>, TypeScheme>>, b: Seq<Map<Seq<char>, TypeScheme>>) -> bool {
    &&& a.len() == b.len()
    &&& forall|i: int| 0 <= i < a.len() - 1 ==> #[trigger] a[i] == b[i]
}

impl Default for TypeChecker {
    /// A new type checker, as [`TypeChecker::new`] makes it.
    fn default() -> (r: TypeChecker)
        ensures
            r.diags().len() == 0,
            r.effects() == builtin_effects(),
            r.names() == (ExhNames { owners: Map::empty(), adts: Map::empty() }),
    {
        TypeChecker::new()
    }
}

impl TypeChecker {
    /// The diagnostics collected so far.
    pub closed spec fn diags(&self) -> Seq<Diagnostic> {
        self.diagnostics@
    }

    /// The effects of the functions known so far.
    pub closed spec fn effects(&self) -> Map<Seq<char>, FnEffectInfo> {
        self.env.fn_effects@
    }

    /// The types known so far, as the exhaustiveness check reads them.
    pub closed spec fn names(&self) -> ExhNames {
        exh_names(self.env)
    }

    /// The names bound in scope to a monomorphic base type, with that type.
    pub closed spec fn known(&self) -> Map<Seq<char>, TyV> {
        known_names(self.env.scopes())
    }

    /// Whether there is a scope to bind names in.
    pub closed spec fn has_scope(&self) -> bool {
        self.env.scopes().len() > 0
    }

    /// Create a new type checker with the builtin functions bound.
    pub fn new() -> (r: TypeChecker)
        ensures
            r.diags().len() == 0,
            r.effects() == builtin_effects(),
            r.names() == (ExhNames { owners: Map::empty(), adts: Map::empty() }),
            r.known() == Map::<Seq<char>, TyV>::empty(),
            r.has_scope(),
    {
        let mut table = UnificationTable::new();
        let ghost n0 = table.next();
        let env = TypeEnv::new(&mut table);
        let r = TypeChecker { table, env, diagnostics: Vec::new() };
        assert(exh_names(r.env).owners =~= Map::empty());
        assert(exh_names(r.env).adts =~= Map::empty());
        proof {
            let m = r.env.scopes()[0];
            let bs = crate::env::builtin_schemes(n0);
            assert forall|n: Seq<char>| bs.contains_key(n) implies (#[trigger] bs[n]).1 is Fun by {}
            assert(r.env.scopes() =~= seq![m]);
            assert forall|n: Seq<char>| #[trigger] lookup_scopes(r.env.scopes(), n) == if m.contains_key(n) { Some(m[n]) } else { None } by {
                reveal_with_fuel(lookup_scopes, 2);
                assert(r.env.scopes().last() == m);
                assert(r.env.scopes().drop_last().len() == 0);
            }
            assert forall|n: Seq<char>| m.contains_key(n) implies !is_base((#[trigger] m[n]).ty@) by {
                assert(bs.contains_key(n));
                assert(crate::env::scheme_view(m[n]) == bs[n]);
            }
            assert(known_names(r.env.scopes()) =~= Map::<Seq<char>, TyV>::empty());
        }
        r
    }

    /// Records a diagnostic.
    #[verifier::spinoff_prover]
    fn report(&mut self, d: Diagnostic)
        requires
            is_check_code(d.code.0@),
        ensures
            final(self).diagnostics@ == old(self).diagnostics@.push(d),
            final(self).table == old(self).table,
            final(self).env == old(self).env,
            steps(*old(self), *final(self)),
    {
        let ghost before = self.diagnostics@;
        self.diagnostics.push(d);
        proof {
            if check_codes(before) {
                assert forall|k: int| 0 <= k < self.diagnostics@.len() implies is_check_code(#[trigger] self.diagnostics@[k].code.0@) by {
                    if k < before.len() {
                        assert(self.diagnostics@[k] == before[k]);
                    }
                }
            }
        }
    }

    /// Type-check a parsed program and return all diagnostics: those of type
    /// inference, then of effect checking, then of exhaustiveness checking.
    #[verifier::rlimit(60)]
    #[verifier::spinoff_prover]
    pub fn check(self, program: &Program) -> (r: Vec<Diagnostic>)
        requires
            self.diags().len() == 0,
            self.effects() == builtin_effects(),
            self.names() == (ExhNames { owners: Map::empty(), adts: Map::empty() }),
        ensures
            check_codes(r@),
            program.decls@.len() == 0 ==> r@.len() == 0,
            exists|m: int, n: int| #[trigger] phases_reported(r@, m, n, program.decls@)
                && (closed_lets(program.decls@) ==> dviews(r@.subrange(0, m)) == lets_diags(program.decls@))
                && (lets_known(self.known(), program.decls@).2 && self.has_scope()
                    ==> dviews(r@.subrange(0, m)) == lets_known(self.known(), program.decls@).1)
                && (decls_known(without_fns(self.known(), program.decls@), program.decls@).2 && self.has_scope()
                    && fn_names_unique(program.decls@)
                    ==> dviews(r@.subrange(0, m)) == decls_known(without_fns(self.known(), program.decls@), program.decls@).1),
    {
        let mut tc = self;
        let ghost ds = program.decls@;
        let ghost ctx0 = known_names(self.env.scopes());
        let ghost lk = lets_known(ctx0, ds).2 && self.env.scopes().len() > 0;
        let ghost cx = without_fns(ctx0, ds);
        let ghost dk = decls_known(cx, ds).2 && self.env.scopes().len() > 0 && fn_names_unique(ds);
        proof {
            assert(check_codes(tc.diagnostics@));
            assert(ds.subrange(0, ds.len() as int) =~= ds);
        }
        let mut i: usize = 0;
        while i < program.decls.len()
            invariant
                check_codes(tc.diagnostics@),
                program.decls@.len() == 0 ==> tc.diagnostics@.len() == 0,
                tc.env.fn_effects@ == builtin_effects(),
                i <= ds.len(),
                ds == program.decls@,
                program_names(ds) == names_after(ds.subrange(i as int, ds.len() as int), exh_names(tc.env)),
                closed_lets(ds) ==> tc.diagnostics@.len() == 0,
                lk == (lets_known(ctx0, ds).2 && self.env.scopes().len() > 0),
                ctx0 == known_names(self.env.scopes()),
                lk ==> tc.diagnostics@.len() == 0 && tc.env.scopes() == self.env.scopes(),
                dk == (decls_known(cx, ds).2 && self.env.scopes().len() > 0 && fn_names_unique(ds)),
                dk ==> tc.diagnostics@.len() == 0 && tc.env.scopes() == self.env.scopes(),
            decreases program.decls@.len() - i,
        {
            let decl = &program.decls[i];
            proof { if closed_lets(ds) { lemma_closed_lets_elem(ds, i as int); } }
            proof { if lk { lemma_lets_known_prefix(ctx0, ds, i as int); } }
            proof { if dk { lemma_decls_known_prefix(cx, ds, i as int); } }
            proof {
                let rest = ds.subrange(i as int, ds.len() as int);
                assert(rest[0] == ds[i as int]);
                assert(rest.drop_first() =~= ds.subrange(i + 1, ds.len() as int));
            }
            if let DeclKind::TypeDef { name, type_params, variants } = &decl.kind {
                tc.register_type_def(name, type_params, variants);
            }
            i = i + 1;
        }
        proof { assert(ds.subrange(i as int, ds.len() as int) =~= Seq::<Decl>::empty()); }
        let mut i: usize = 0;
        proof { assert(ds.subrange(0, ds.len() as int) =~= ds); }
        while i < program.decls.len()
            invariant
                i <= ds.len(),
                ds == program.decls@,
                check_codes(tc.diagnostics@),
                program.decls@.len() == 0 ==> tc.diagnostics@.len() == 0,
                program_effects(ds) == declared_effects(ds.subrange(i as int, ds.len() as int), tc.env.fn_effects@),
                exh_names(tc.env) == program_names(ds),
                closed_lets(ds) ==> tc.diagnostics@.len() == 0,
                lk == (lets_known(ctx0, ds).2 && self.env.scopes().len() > 0),
                ctx0 == known_names(self.env.scopes()),
                lk ==> tc.diagnostics@.len() == 0 && tc.env.scopes() == self.env.scopes(),
                dk == (decls_known(cx, ds).2 && self.env.scopes().len() > 0 && fn_names_unique(ds)),
                cx == without_fns(ctx0, ds),
                dk ==> tc.diagnostics@.len() == 0 && tc.env.scopes().len() > 0
                    && known_names(tc.env.scopes()) == without_fns(ctx0, ds.subrange(0, i as int)),
                dk ==> forall|j: int| 0 <= j < i && (#[trigger] ds[j]).kind is FnDef ==> ({
                    let sig = simple_sig(ds[j].kind->FnDef_params@, ds[j].kind->FnDef_return_type)->0;
                    lookup_scopes(tc.env.scopes(), decl_name(ds[j])) matches Some(sc)
                        && sc.ty@ == TyV::Fun(sig.0, Box::new(sig.1))
                }),
            decreases program.decls@.len() - i,
        {
            let decl = &program.decls[i];
            let ghost sc_before = tc.env.scopes();
            proof { if closed_lets(ds) { lemma_closed_lets_elem(ds, i as int); } }
            proof { if lk { lemma_lets_known_prefix(ctx0, ds, i as int); } }
            proof { if dk { lemma_decls_known_prefix(cx, ds, i as int); } }
            proof {
                let rest = ds.subrange(i as int, ds.len() as int);
                assert(rest[0] == ds[i as int]);
                assert(rest.drop_first() =~= ds.subrange(i + 1, ds.len() as int));
                let pre = ds.subrange(0, i + 1);
                assert(pre.drop_last() =~= ds.subrange(0, i as int));
                assert(pre.last() == ds[i as int]);
            }
            if let DeclKind::FnDef { name, effect, params, return_type, .. } = &decl.kind {
                tc.register_fn_sig(name, *effect, params, return_type, decl.span);
                proof {
                    if dk {
                        let sc2 = tc.env.scopes();
                        let s = sc2.last()[name@];
                        assert(sc2 == sc_before.update(sc_before.len() - 1, sc_before.last().insert(name@, s)));
                        lemma_known_bind(sc_before, name@, s);
                        lemma_lookup_bind(sc_before, name@, s);
                        assert forall|j: int| 0 <= j < i + 1 && (#[trigger] ds[j]).kind is FnDef implies ({
                            let sig = simple_sig(ds[j].kind->FnDef_params@, ds[j].kind->FnDef_return_type)->0;
                            lookup_scopes(tc.env.scopes(), decl_name(ds[j])) matches Some(sc)
                                && sc.ty@ == TyV::Fun(sig.0, Box::new(sig.1))
                        }) by {
                            if j < i {
                                assert(decl_name(ds[j]) != decl_name(ds[i as int]));
                            }
                        }
                    }
                }
            }
            i = i + 1;
        }
        proof { assert(ds.subrange(i as int, ds.len() as int) =~= Seq::<Decl>::empty()); }
        let mut i: usize = 0;
        while i < program.decls.len()
            invariant
                check_codes(tc.diagnostics@),
                program.decls@.len() == 0 ==> tc.diagnostics@.len() == 0,
                tc.env.fn_effects@ == program_effects(ds),
                exh_names(tc.env) == program_names(ds),
                ds == program.decls@,
                i <= ds.len(),
                closed_lets(ds) ==> dviews(tc.diagnostics@) == lets_diags(ds.subrange(0, i as int)),
                lk == (lets_known(ctx0, ds).2 && self.env.scopes().len() > 0),
                lk ==> tc.env.scopes().len() > 0
                    && known_names(tc.env.scopes()) == lets_known(ctx0, ds.subrange(0, i as int)).0
                    && dviews(tc.diagnostics@) == lets_known(ctx0, ds.subrange(0, i as int)).1,
                dk == (decls_known(cx, ds).2 && self.env.scopes().len() > 0 && fn_names_unique(ds)),
                dk ==> tc.env.scopes().len() > 0
                    && known_names(tc.env.scopes()) == decls_known(cx, ds.subrange(0, i as int)).0
                    && dviews(tc.diagnostics@) == decls_known(cx, ds.subrange(0, i as int)).1,
                dk ==> forall|j: int| i <= j < ds.len() && (#[trigger] ds[j]).kind is FnDef ==> ({
                    let sig = simple_sig(ds[j].kind->FnDef_params@, ds[j].kind->FnDef_return_type)->0;
                    lookup_scopes(tc.env.scopes(), decl_name(ds[j])) matches Some(sc)
                        && sc.ty@ == TyV::Fun(sig.0, Box::new(sig.1))
                }),
            decreases program.decls@.len() - i,
        {
            let ghost before = tc.diagnostics@;
            let ghost sc_before = tc.env.scopes();
            proof {
                if dk {
                    lemma_decls_known_prefix(cx, ds, i as int);
                    lemma_decls_known_prefix(cx, ds, i + 1);
                    let sub = ds.subrange(0, i + 1);
                    assert(sub.drop_last() =~= ds.subrange(0, i as int));
                    assert(sub.last() == ds[i as int]);
                }
            }
            proof {
                if lk {
                    lemma_lets_known_prefix(ctx0, ds, i as int);
                    lemma_lets_known_prefix(ctx0, ds, i + 1);
                    let sub = ds.subrange(0, i + 1);
                    assert(sub.drop_last() =~= ds.subrange(0, i as int));
                    assert(sub.last() == ds[i as int]);
                }
            }
            tc.check_decl(&program.decls[i]);
            proof {
                if dk {
                    let d = ds[i as int];
                    let ctx = decls_known(cx, ds.subrange(0, i as int)).0;
                    let sc2 = tc.env.scopes();
                    if sc2 != sc_before {
                        let s = sc2.last()[decl_name(d)];
                        lemma_known_bind(sc_before, decl_name(d), s);
                        lemma_lookup_bind(sc_before, decl_name(d), s);
                    }
                    assert forall|j: int| i + 1 <= j < ds.len() && (#[trigger] ds[j]).kind is FnDef implies ({
                        let sig = simple_sig(ds[j].kind->FnDef_params@, ds[j].kind->FnDef_return_type)->0;
                        lookup_scopes(tc.env.scopes(), decl_name(ds[j])) matches Some(sc)
                            && sc.ty@ == TyV::Fun(sig.0, Box::new(sig.1))
                    }) by {
                        if !(ds[i as int].kind is TypeDef) {
                            assert(decl_name(ds[j]) != decl_name(ds[i as int]));
                        }
                    }
                    if d.kind is LetDef {
                        crate::parser::lemma_grows_views(before, tc.diagnostics@,
                            let_reports(ctx, d.kind->LetDef_type_annotation, d.kind->LetDef_value));
                    } else if d.kind is FnDef {
                        let params = d.kind->FnDef_params@;
                        let body = d.kind->FnDef_body;
                        let sig = simple_sig(params, d.kind->FnDef_return_type)->0;
                        let cf = with_params(ctx, params, sig.0, params.len());
                        let res = ops_in(cf, body);
                        let mid = tc.diagnostics@.subrange(0, (before.len() + res.1.len()) as int);
                        assert(sig.0.len() == params.len());
                        assert(occ(sig.1) =~= Seq::<u32>::empty());
                        crate::parser::lemma_grows_views(before, mid, res.1);
                        match res.0 {
                            Some(bt) => {
                                lemma_body_checked_grows(mid, tc.diagnostics@, decl_name(d), sig.1, bt, body.span);
                                crate::parser::lemma_grows_views(mid, tc.diagnostics@, body_report(decl_name(d), sig.1, bt, body.span));
                            }
                            None => {}
                        }
                        assert(!known_names(sc_before).contains_key(decl_name(d)));
                        assert(known_names(sc_before).remove(decl_name(d)) =~= known_names(sc_before));
                    }
                }
            }
            proof {
                if lk {
                    let sub = ds.subrange(0, i + 1);
                    let ctx = lets_known(ctx0, ds.subrange(0, i as int)).0;
                    crate::parser::lemma_grows_views(before, tc.diagnostics@, ops_in(ctx, ds[i as int].kind->LetDef_value).1);
                }
            }
            proof {
                if closed_lets(ds) {
                    lemma_closed_lets_elem(ds, i as int);
                    crate::parser::lemma_grows_views(before, tc.diagnostics@, ops_infer(ds[i as int].kind->LetDef_value).1);
                    let sub = ds.subrange(0, i + 1);
                    assert(sub.drop_last() =~= ds.subrange(0, i as int));
                    assert(sub.last() == ds[i as int]);
                }
            }
            i = i + 1;
        }
        proof {
            if closed_lets(ds) || lk || dk {
                assert(ds.subrange(0, ds.len() as int) =~= ds);
            }
        }
        let effect_diags = check_effects(program, &tc.env);
        let exhaust_diags = check_exhaustiveness(program, &tc.env, &tc.table);
        let ghost calls = crate::effects::program_io_calls(program.decls@, tc.env.fn_effects@);
        let ghost xs = crate::exhaustiveness::program_exh_diags(program.decls@, tc.env);
        let ghost ed = effect_diags@;
        let ghost xd = exhaust_diags@;
        let mut out = tc.diagnostics;
        let ghost before = out@;
        let mut e = effect_diags;
        out.append(&mut e);
        let mut x = exhaust_diags;
        out.append(&mut x);
        proof {
            assert(out@ == before + ed + xd);
            assert forall|k: int| 0 <= k < out@.len() implies is_check_code(#[trigger] out@[k].code.0@) by {
                if k >= before.len() + ed.len() {
                    let j = k - before.len() - ed.len();
                    assert(out@[k] == xd[j]);
                    assert(xd[0 + j] == xd[j]);
                    assert(crate::exhaustiveness::is_exdiag(xd[0 + j], xs[j]));
                    assert(xs[j].code == "E0400"@ || xs[j].code == "E0401"@) by {
                        crate::exhaustiveness::lemma_program_exh_codes(program.decls@, tc.env);
                    }
                } else if k >= before.len() {
                    let j = k - before.len();
                    assert(out@[k] == ed[j]);
                    assert(ed[0 + j] == ed[j]);
                    assert(crate::effects::reports_io_call(ed[0 + j], calls[j]));
                }
            }
            let m = before.len() as int;
            let n = (before.len() + ed.len()) as int;
            assert(out@.subrange(0, m) =~= before);
            assert(out@.subrange(0, n) =~= before + ed);
            assert((before + ed).subrange(0, m) =~= before);
            assert forall|k: int| 0 <= k < calls.len() implies crate::effects::reports_io_call(#[trigger] (before + ed)[m + k], calls[k]) by {
                assert((before + ed)[m + k] == ed[k]);
                assert(ed[0 + k] == ed[k]);
            }
            assert forall|k: int| n <= k < out@.len() implies (#[trigger] out@[k].code.0@ == "E0400"@ || out@[k].code.0@ == "E0401"@) by {
                let j = k - n;
                assert(out@[k] == xd[j]);
                assert(xd[0 + j] == xd[j]);
                assert(crate::exhaustiveness::is_exdiag(xd[0 + j], xs[j]));
                crate::exhaustiveness::lemma_program_exh_codes(program.decls@, tc.env);
            }
            assert(out@.subrange(0, n).len() == n);
            assert forall|k: int| 0 <= k < xs.len() implies crate::exhaustiveness::is_exdiag(#[trigger] out@[out@.subrange(0, n).len() + k], xs[k]) by {
                assert(out@[n + k] == xd[k]);
                assert(xd[0 + k] == xd[k]);
            }
            assert(emits(out@.subrange(0, n), out@, program_exh_diags(ds, tc.env)));
            assert(phases_reported(out@, m, n, ds));
            if closed_lets(ds) {
                assert(dviews(out@.subrange(0, m)) == lets_diags(ds));
            }
            if lk {
                assert(dviews(out@.subrange(0, m)) == lets_known(ctx0, ds).1);
            }
            if dk {
                assert(dviews(out@.subrange(0, m)) == decls_known(cx, ds).1);
            }
        }
        out
    }

    /// Register a type definition: first the ADT name with no variants, so
    /// that its field types may refer to it, then with its variants.
    fn register_type_def(&mut self, name: &String, type_params: &Vec<String>, variants: &Vec<Variant>)
        ensures
            steps_top(*old(self), *final(self)),
            final(self).env.fn_effects@ == old(self).env.fn_effects@,
            exh_names(final(self).env) == add_type(exh_names(old(self).env), name@, variants@),
            final(self).env.scopes() == old(self).env.scopes(),
            simple_variants(variants@) ==> final(self).diagnostics@ == old(self).diagnostics@,
    {
        let ghost v0 = self.env.variant_defs@;
        let ghost a0 = self.env.adt_defs@;
        let info0 = AdtInfo { name: name.clone(), type_params: clone_strings(type_params), variants: Vec::new() };
        let ghost vs0 = info0.variants@;
        self.env.register_adt(info0);
        proof {
            let vd = self.env.variant_defs@;
            assert forall|k: Seq<char>| #[trigger] same_entry(vd, v0, k) by {
                assert(vs0.len() == 0);
                assert(!named_among(vs0, vs0.len() as int, k));
            }
            assert forall|k: Seq<char>| vd.dom().contains(k) == v0.dom().contains(k) by {
                assert(same_entry(vd, v0, k));
            }
            assert(vd.dom() =~= v0.dom());
            assert forall|k: Seq<char>| vd.dom().contains(k) implies vd[k] == v0[k] by {
                assert(same_entry(vd, v0, k));
            }
            assert(vd =~= v0);
        }
        let ghost a1 = self.env.adt_defs@;
        let mut variant_infos: Vec<VariantInfo> = Vec::new();
        let mut i: usize = 0;
        while i < variants.len()
            invariant
                steps_top(*old(self), *self),
                self.env.fn_effects@ == old(self).env.fn_effects@,
                self.env.variant_defs@ == v0,
                self.env.adt_defs@ == a1,
                i <= variants@.len(),
                variant_infos@.len() == i,
                forall|k: int| 0 <= k < i ==> (#[trigger] variant_infos@[k]).name@ == variants@[k].name@
                    && variant_infos@[k].adt_name@ == name@,
                self.env.scopes() == old(self).env.scopes(),
                simple_variants(variants@) ==> self.diagnostics@ == old(self).diagnostics@,
            decreases variants@.len() - i,
        {
            let variant = &variants[i];
            let mut field_types: Vec<Type> = Vec::new();
            let mut j: usize = 0;
            while j < variant.fields.len()
                invariant
                    steps_top(*old(self), *self),
                    self.env.fn_effects@ == old(self).env.fn_effects@,
                    self.env.variant_defs@ == v0,
                    self.env.adt_defs@ == a1,
                    self.env.scopes() == old(self).env.scopes(),
                    simple_variants(variants@) ==> self.diagnostics@ == old(self).diagnostics@,
                    *variant == variants@[i as int],
                    i < variants@.len(),
                decreases variant.fields@.len() - j,
            {
                proof {
                    if simple_variants(variants@) {
                        assert(base_ann(Some(variants@[i as int].fields@[j as int])) is Some);
                    }
                }
                let t = self.annotation_to_type(&variant.fields[j], type_params);
                field_types.push(t);
                j = j + 1;
            }
            variant_infos.push(VariantInfo {
                name: variant.name.clone(),
                field_types,
                adt_name: name.clone(),
                type_params: clone_strings(type_params),
            });
            i = i + 1;
        }
        let info = AdtInfo { name: name.clone(), type_params: clone_strings(type_params), variants: variant_infos };
        let ghost vs = info.variants@;
        self.env.register_adt(info);
        proof {
            let old_n = exh_names(old(self).env);
            let new_n = exh_names(self.env);
            let want = add_type(old_n, name@, variants@);
            let vd = self.env.variant_defs@;
            assert(vs.len() == variants@.len());
            assert forall|k: Seq<char>| declares(variants@, k) == named_among(vs, vs.len() as int, k) by {
                if declares(variants@, k) {
                    let a = choose|a: int| 0 <= a < variants@.len() && #[trigger] variants@[a].name@ == k;
                    assert(vs[a].name@ == k);
                }
                if named_among(vs, vs.len() as int, k) {
                    let a = choose|a: int| 0 <= a < vs.len() && #[trigger] vs[a].name@ == k;
                    assert(variants@[a].name@ == k);
                }
            }
            assert forall|k: Seq<char>| #[trigger] new_n.owners.contains_key(k) == want.owners.contains_key(k)
                && (new_n.owners.contains_key(k) ==> new_n.owners[k] == want.owners[k]) by {
                if named_among(vs, vs.len() as int, k) {
                    lemma_last_named(vs, k);
                    let i = choose|i: int| 0 <= i < vs.len() && vs[i].name@ == k
                        && !named_among(vs.subrange(i + 1, vs.len() as int), vs.len() - i - 1, #[trigger] vs[i].name@);
                    assert(vd.contains_key(vs[i].name@) && vd[vs[i].name@].same(vs[i]));
                } else {
                    assert(same_entry(vd, v0, k));
                }
            }
            assert(new_n.owners =~= want.owners);
            assert(variant_names(self.env.adt_defs@[name@]) =~= variants@.map_values(|v: Variant| v.name@));
            assert(new_n.adts =~= want.adts);
        }
    }

    /// Pre-register a function signature so that other functions can call it.
    fn register_fn_sig(&mut self, name: &String, effect: Effect, params: &Vec<Param>, return_type: &Option<TypeAnnotation>, _span: Span)
        ensures
            steps_top(*old(self), *final(self)),
            final(self).env.fn_effects@ == old(self).env.fn_effects@.insert(name@, FnEffectInfo { effect }),
            final(self).env.adt_defs@ == old(self).env.adt_defs@,
            final(self).env.variant_defs@ == old(self).env.variant_defs@,
            old(self).env.scopes().len() > 0 ==> rebinds(old(self).env.scopes(), final(self).env.scopes(), name@)
                && final(self).env.scopes().last()[name@].vars@.len() == 0
                && final(self).env.scopes().last()[name@].ty@ is Fun,
            old(self).env.scopes().len() > 0 ==> (simple_sig(params@, *return_type) matches Some((ps, rt))
                ==> final(self).env.scopes().last()[name@].ty@ == TyV::Fun(ps, Box::new(rt))),
            simple_sig(params@, *return_type) is Some ==> final(self).diagnostics@ == old(self).diagnostics@,
    {
        let no_params: Vec<String> = Vec::new();
        let mut param_types: Vec<Type> = Vec::new();
        let mut i: usize = 0;
        while i < params.len()
            invariant
                steps_top(*old(self), *self),
                self.env.fn_effects@ == old(self).env.fn_effects@,
                self.env.adt_defs@ == old(self).env.adt_defs@,
                self.env.variant_defs@ == old(self).env.variant_defs@,
                self.env.scopes() == old(self).env.scopes(),
                no_params@.len() == 0,
                i <= params@.len(),
                param_types@.len() == i,
                forall|k: int| 0 <= k < i && base_ann(params@[k].type_annotation) is Some
                    ==> (#[trigger] param_types@[k])@ == base_ann(params@[k].type_annotation)->0,
                (forall|k: int| 0 <= k < i ==> base_ann(#[trigger] params@[k].type_annotation) is Some)
                    ==> self.diagnostics@ == old(self).diagnostics@,
            decreases params@.len() - i,
        {
            let t = match &params[i].type_annotation {
                Some(ann) => self.annotation_to_type(ann, &no_params),
                None => self.table.fresh_var(),
            };
            proof {
                if base_ann(params@[i as int].type_annotation) is Some {
                    let ann = params@[i as int].type_annotation->0;
                    let nm = ann.kind->Name_name;
                    assert(!names_param(no_params@, nm@));
                }
            }
            param_types.push(t);
            i = i + 1;
        }
        let ret_type = match return_type {
            Some(ann) => self.annotation_to_type(ann, &no_params),
            None => self.table.fresh_var(),
        };
        proof {
            if base_ann(*return_type) is Some {
                let nm = return_type->0.kind->Name_name;
                assert(!names_param(no_params@, nm@));
            }
        }
        let fn_type = Type::Fun(param_types, Box::new(ret_type));
        proof {
            crate::types::lemma_tview_list(param_types@);
            if simple_sig(params@, *return_type) is Some {
                let sig = simple_sig(params@, *return_type)->0;
                let ps = sig.0;
                assert(tview_list(param_types@) =~= ps);
            }
        }
        self.env.bind(name.clone(), TypeScheme::mono(fn_type));
        self.env.set_effect(name.clone(), FnEffectInfo { effect });
    }

    /// Convert a type annotation to a type; type parameters become fresh
    /// variables.
    fn annotation_to_type(&mut self, ann: &TypeAnnotation, type_params: &Vec<String>) -> (r: Type)
        ensures
            steps(*old(self), *final(self)),
            final(self).env == old(self).env,
            ann_shape(r@, *ann, type_params@, old(self).env.adt_defs@),
            final(self).diagnostics@.len() >= old(self).diagnostics@.len(),
            ann_valid(*ann, type_params@, old(self).env.adt_defs@) ==> final(self).diagnostics@ == old(self).diagnostics@,
            !ann_valid(*ann, type_params@, old(self).env.adt_defs@) ==> final(self).diagnostics@.len() > old(self).diagnostics@.len(),
        decreases ann,
    {
        match &ann.kind {
            TypeKind::Name { name } => self.name_to_type(name, type_params, ann.span),
            TypeKind::App { name, args } => {
                let mut type_args: Vec<Type> = Vec::new();
                let mut i: usize = 0;
                proof {
                    assert forall|k: int| 0 <= k < args@.len() implies decreases_to!(ann => #[trigger] args@[k]) by {}
                }
                while i < args.len()
                    invariant
                        steps(*old(self), *self),
                        self.env == old(self).env,
                        forall|k: int| 0 <= k < args@.len() ==> decreases_to!(ann => #[trigger] args@[k]),
                        i <= args@.len(),
                        type_args@.len() == i,
                        forall|k: int| 0 <= k < i ==> ann_shape(#[trigger] type_args@[k]@, args@[k], type_params@, old(self).env.adt_defs@),
                        self.diagnostics@.len() >= old(self).diagnostics@.len(),
                        (forall|k: int| 0 <= k < i ==> ann_valid(#[trigger] args@[k], type_params@, old(self).env.adt_defs@))
                            ==> self.diagnostics@ == old(self).diagnostics@,
                        (exists|k: int| 0 <= k < i && !ann_valid(#[trigger] args@[k], type_params@, old(self).env.adt_defs@))
                            ==> self.diagnostics@.len() > old(self).diagnostics@.len(),
                    decreases args@.len() - i,
                {
                    proof { assert(decreases_to!(ann => args@[i as int])); }
                    let t = self.annotation_to_type(&args[i], type_params);
                    type_args.push(t);
                    i = i + 1;
                }
                let n = type_args.len();
                proof {
                    reveal_strlit("Option");
                    reveal_strlit("Result");
                    reveal_strlit("List");
                    assert("Result"@[0] != "Option"@[0] && "Result"@.len() != "List"@.len());
                }
                if eq_lit(name, "Option") {
                    if n == 1 {
                        proof { assert(ann_shape(type_args@[0]@, args@[0], type_params@, old(self).env.adt_defs@)); }
                        let t = type_args.pop().unwrap();
                        Type::Option(Box::new(t))
                    } else {
                        let msg = join3("Option expects 1 type argument, found ", &usize_to_string(n), "");
                        self.report(Diagnostic::with_severity("E0204", Severity::Error, msg, ann.span));
                        proof { assert(crate::types::tview(Type::Unit) == TyV::Unit); }
                        Type::Option(Box::new(Type::Unit))
                    }
                } else if eq_lit(name, "Result") {
                    if n == 2 {
                        proof {
                            assert(ann_shape(type_args@[0]@, args@[0], type_params@, old(self).env.adt_defs@));
                            assert(ann_shape(type_args@[1]@, args@[1], type_params@, old(self).env.adt_defs@));
                        }
                        let e = type_args.pop().unwrap();
                        let o = type_args.pop().unwrap();
                        Type::Result(Box::new(o), Box::new(e))
                    } else {
                        let msg = join3("Result expects 2 type arguments, found ", &usize_to_string(n), "");
                        self.report(Diagnostic::with_severity("E0204", Severity::Error, msg, ann.span));
                        proof { assert(crate::types::tview(Type::Unit) == TyV::Unit); }
                        Type::Result(Box::new(Type::Unit), Box::new(Type::Unit))
                    }
                } else if eq_lit(name, "List") {
                    if n == 1 {
                        proof { assert(ann_shape(type_args@[0]@, args@[0], type_params@, old(self).env.adt_defs@)); }
                        let t = type_args.pop().unwrap();
                        Type::List(Box::new(t))
                    } else {
                        let msg = join3("List expects 1 type argument, found ", &usize_to_string(n), "");
                        self.report(Diagnostic::with_severity("E0204", Severity::Error, msg, ann.span));
                        Type::List(Box::new(Type::Unit))
                    }
                } else if self.env.adt_defs.contains_key(name.as_str()) {
                    proof {
                        crate::types::lemma_tview_list(type_args@);
                        assert forall|k: int| 0 <= k < args@.len() implies
                            ann_shape(#[trigger] tview_list(type_args@)[k], args@[k], type_params@, old(self).env.adt_defs@) by {
                            assert(ann_shape(type_args@[k]@, args@[k], type_params@, old(self).env.adt_defs@));
                        }
                    }
                    Type::ADT(name.clone(), type_args)
                } else {
                    let msg = join3("undefined type `", name, "`");
                    self.report(Diagnostic::with_severity("E0202", Severity::Error, msg, ann.span)
                        .with_label(Label::new(ann.span, "not found")));
                    Type::Unit
                }
            }
            TypeKind::Fn { params, ret } => {
                let mut param_types: Vec<Type> = Vec::new();
                let mut i: usize = 0;
                proof {
                    assert forall|k: int| 0 <= k < params@.len() implies decreases_to!(ann => #[trigger] params@[k]) by {}
                }
                while i < params.len()
                    invariant
                        steps(*old(self), *self),
                        self.env == old(self).env,
                        forall|k: int| 0 <= k < params@.len() ==> decreases_to!(ann => #[trigger] params@[k]),
                        i <= params@.len(),
                        param_types@.len() == i,
                        forall|k: int| 0 <= k < i ==> ann_shape(#[trigger] param_types@[k]@, params@[k], type_params@, old(self).env.adt_defs@),
                        self.diagnostics@.len() >= old(self).diagnostics@.len(),
                        (forall|k: int| 0 <= k < i ==> ann_valid(#[trigger] params@[k], type_params@, old(self).env.adt_defs@))
                            ==> self.diagnostics@ == old(self).diagnostics@,
                        (exists|k: int| 0 <= k < i && !ann_valid(#[trigger] params@[k], type_params@, old(self).env.adt_defs@))
                            ==> self.diagnostics@.len() > old(self).diagnostics@.len(),
                    decreases params@.len() - i,
                {
                    proof { assert(decreases_to!(ann => params@[i as int])); }
                    let t = self.annotation_to_type(&params[i], type_params);
                    param_types.push(t);
                    i = i + 1;
                }
                let ret_type = self.annotation_to_type(ret, type_params);
                proof {
                    crate::types::lemma_tview_list(param_types@);
                    assert forall|k: int| 0 <= k < params@.len() implies
                        ann_shape(#[trigger] tview_list(param_types@)[k], params@[k], type_params@, old(self).env.adt_defs@) by {
                        assert(ann_shape(param_types@[k]@, params@[k], type_params@, old(self).env.adt_defs@));
                    }
                }
                Type::Fun(param_types, Box::new(ret_type))
            }
        }
    }

    /// Convert a simple type name to a type: a type parameter becomes a
    /// fresh variable, a builtin or declared type that type (a declared
    /// type with fresh variables as its arguments), and any other name is
    /// reported as undefined and becomes `Unit`.
    fn name_to_type(&mut self, name: &String, type_params: &Vec<String>, span: Span) -> (r: Type)
        ensures
            steps(*old(self), *final(self)),
            final(self).env == old(self).env,
            names_param(type_params@, name@) ==> r@ == TyV::Var(old(self).table.next())
                && final(self).diagnostics@ == old(self).diagnostics@,
            !names_param(type_params@, name@) && builtin_named(name@) is Some
                ==> r@ == builtin_named(name@)->0 && *final(self) == *old(self),
            !names_param(type_params@, name@) && builtin_named(name@) is None && old(self).env.adt_defs@.contains_key(name@)
                ==> r@ == TyV::ADT(name@, fresh_seq(old(self).table.next(), old(self).env.adt_defs@[name@].type_params@.len()))
                && final(self).diagnostics@ == old(self).diagnostics@,
            !names_param(type_params@, name@) && builtin_named(name@) is None && !old(self).env.adt_defs@.contains_key(name@)
                ==> r@ == TyV::Unit && adds_error(*old(self), *final(self), "E0202"@, "undefined type `"@ + name@ + "`"@, span),
    {
        let mut k: usize = 0;
        while k < type_params.len()
            invariant
                k <= type_params@.len(),
                *self == *old(self),
                forall|j: int| 0 <= j < k ==> #[trigger] type_params@[j]@ != name@,
            decreases type_params@.len() - k,
        {
            if type_params[k] == *name {
                return self.table.fresh_var();
            }
            k = k + 1;
        }
        if eq_lit(name, "Int") {
            Type::Int
        } else if eq_lit(name, "Float") {
            Type::Float
        } else if eq_lit(name, "Bool") {
            Type::Bool
        } else if eq_lit(name, "String") {
            Type::String
        } else if eq_lit(name, "Unit") {
            Type::Unit
        } else {
            match self.env.adt_defs.get(name.as_str()) {
                Some(adt) => {
                    let np = adt.type_params.len();
                    let ghost n0 = self.table.next();
                    let mut args: Vec<Type> = Vec::new();
                    let mut i: usize = 0;
                    while i < np
                        invariant
                            steps(*old(self), *self),
                            self.env == old(self).env,
                            self.diagnostics@ == old(self).diagnostics@,
                            n0 == old(self).table.next(),
                            i <= np,
                            self.table.next() == nth_fresh(n0, i as nat),
                            tview_list(args@) =~= fresh_seq(n0, i as nat),
                        decreases np - i,
                    {
                        let v = self.table.fresh_var();
                        proof {
                            assert(nth_fresh(n0, (i + 1) as nat) == vstd::wrapping::u32_specs::wrapping_add(nth_fresh(n0, i as nat), 1));
                            lemma_tview_list_push(args@, v);
                        }
                        args.push(v);
                        i = i + 1;
                    }
                    Type::ADT(name.clone(), args)
                }
                None => {
                    let msg = join3("undefined type `", name, "`");
                    self.report(Diagnostic::with_severity("E0202", Severity::Error, msg, span)
                        .with_label(Label::new(span, "not found")));
                    Type::Unit
                }
            }
        }
    }
}


/// Seven strings in order.
fn join7(a: &str, b: &str, c: &str, d: &str, e: &str, f: &str, g: &str) -> (r: String)
    ensures
        r@ == a@ + b@ + c@ + d@ + e@ + f@ + g@,
{
    cat(cat(cat(cat(cat(cat(owned(a), b), c), d), e), f), g)
}

/// The symbol of a binary operator.
pub open spec fn binop_text(op: BinOp) -> Seq<char> {
    match op {
        BinOp::Add => "+"@,
        BinOp::Sub => "-"@,
        BinOp::Mul => "*"@,
        BinOp::Div => "/"@,
        BinOp::Mod => "%"@,
        BinOp::Concat => "++"@,
        BinOp::Eq => "=="@,
        BinOp::Ne => "!="@,
        BinOp::Lt => "<"@,
        BinOp::Le => "<="@,
        BinOp::Gt => ">"@,
        BinOp::Ge => ">="@,
        BinOp::And => "&&"@,
        BinOp::Or => "||"@,
    }
}

/// Get the symbol representation of a binary operator.
pub fn binop_symbol(op: BinOp) -> (r: &'static str)
    ensures
        r@ == binop_text(op),
{
    match op {
        BinOp::Add => "+",
        BinOp::Sub => "-",
        BinOp::Mul => "*",
        BinOp::Div => "/",
        BinOp::Mod => "%",
        BinOp::Concat => "++",
        BinOp::Eq => "==",
        BinOp::Ne => "!=",
        BinOp::Lt => "<",
        BinOp::Le => "<=",
        BinOp::Gt => ">",
        BinOp::Ge => ">=",
        BinOp::And => "&&",
        BinOp::Or => "||",
    }
}

impl TypeChecker {
    /// Type-check a top-level declaration.
    fn check_decl(&mut self, decl: &Decl)
        ensures
            steps_top(*old(self), *final(self)),
            final(self).env.fn_effects@ == old(self).env.fn_effects@,
            final(self).env.adt_defs@ == old(self).env.adt_defs@,
            final(self).env.variant_defs@ == old(self).env.variant_defs@,
            decl.kind is TypeDef ==> *final(self) == *old(self),
            decl.kind matches DeclKind::FnDef { name, params, return_type, body, .. }
                ==> (lookup_scopes(old(self).env.scopes(), name@) matches Some(sc) ==> (sc.ty@ matches TyV::Fun(ps, rt) ==> ({
                let ctx = with_params(known_names(old(self).env.scopes()), params@, ps,
                    if params@.len() < ps.len() { params@.len() } else { ps.len() });
                let res = ops_in(ctx, body);
                let mid = final(self).diagnostics@.subrange(0, (old(self).diagnostics@.len() + res.1.len()) as int);
                occ(*rt).len() == 0 && closed_in(ctx, body) ==> {
                    &&& grows_by(old(self).diagnostics@, mid, res.1)
                    &&& match res.0 {
                        Some(bt) => body_checked(mid, final(self).diagnostics@, name@, return_type is Some, *rt, bt, body.span),
                        None => final(self).diagnostics@ == mid,
                    }
                }
            }))),
            decl.kind matches DeclKind::FnDef { name, body, .. } ==> (old(self).env.scopes().len() > 0 ==> {
                &&& final(self).env.scopes() == old(self).env.scopes()
                    || (rebinds(old(self).env.scopes(), final(self).env.scopes(), name@)
                        && final(self).env.scopes().last()[name@].ty@ is Fun)
                &&& always_typed(body) ==> rebinds(old(self).env.scopes(), final(self).env.scopes(), name@)
            }),
            closed_let(*decl) ==> grows_by(old(self).diagnostics@, final(self).diagnostics@,
                ops_infer(decl.kind->LetDef_value).1),
            decl.kind is LetDef && (decl.kind->LetDef_type_annotation is None
                || base_ann(decl.kind->LetDef_type_annotation) is Some)
                && closed_in(known_names(old(self).env.scopes()), decl.kind->LetDef_value)
                && old(self).env.scopes().len() > 0 ==> ({
                let ctx = known_names(old(self).env.scopes());
                let res = ops_in(ctx, decl.kind->LetDef_value);
                &&& grows_by(old(self).diagnostics@, final(self).diagnostics@,
                    let_reports(ctx, decl.kind->LetDef_type_annotation, decl.kind->LetDef_value))
                &&& known_names(final(self).env.scopes()) == match res.0 {
                    Some(t) => ctx.insert(decl.kind->LetDef_name@, t),
                    None => ctx,
                }
                &&& final(self).env.scopes().len() == old(self).env.scopes().len()
            }),
            decl.kind matches DeclKind::LetDef { name, value, .. } ==> (old(self).env.scopes().len() > 0 ==> {
                &&& final(self).env.scopes() == old(self).env.scopes()
                    || rebinds(old(self).env.scopes(), final(self).env.scopes(), name@)
                &&& always_typed(value) ==> rebinds(old(self).env.scopes(), final(self).env.scopes(), name@)
            }),
    {
        match &decl.kind {
            DeclKind::FnDef { name, params, return_type, body, .. } => {
                self.check_fn_def(name, params, return_type, body, decl.span);
            }
            DeclKind::TypeDef { .. } => {}
            DeclKind::LetDef { name, type_annotation, value } => {
                self.check_let_def(name, type_annotation, value, decl.span);
            }
        }
    }

    /// Fresh type variables, one per parameter.
    fn fresh_vars(&mut self, n: usize) -> (r: Vec<Type>)
        ensures
            steps(*old(self), *final(self)),
            final(self).env == old(self).env,
            final(self).diagnostics@ == old(self).diagnostics@,
            r@.len() == n,
            forall|k: int| 0 <= k < n ==> (#[trigger] r@[k])@ == TyV::Var(nth_fresh(old(self).table.next(), k as nat)),
            final(self).table.next() == nth_fresh(old(self).table.next(), n as nat),
            final(self).table.map() == old(self).table.map(),
            final(self).table.ranks() == old(self).table.ranks(),
    {
        let mut v: Vec<Type> = Vec::new();
        let mut i: usize = 0;
        proof { assert(nth_fresh(old(self).table.next(), 0) == old(self).table.next()); }
        while i < n
            invariant
                i <= n,
                v@.len() == i,
                forall|k: int| 0 <= k < i ==> (#[trigger] v@[k])@ == TyV::Var(nth_fresh(old(self).table.next(), k as nat)),
                self.table.next() == nth_fresh(old(self).table.next(), i as nat),
                self.table.map() == old(self).table.map(),
                self.table.ranks() == old(self).table.ranks(),
                steps(*old(self), *self),
                self.env == old(self).env,
                self.diagnostics@ == old(self).diagnostics@,
            decreases n - i,
        {
            proof {
                assert(nth_fresh(old(self).table.next(), (i + 1) as nat)
                    == vstd::wrapping::u32_specs::wrapping_add(nth_fresh(old(self).table.next(), i as nat), 1));
            }
            v.push(self.table.fresh_var());
            i = i + 1;
        }
        v
    }

    /// Reports a failed unification of a declared type with an inferred one.
    fn report_unify_failure(&mut self, is_infinite: bool, err_span: Span, expected: &Type, found: &Type,
        code: &str, msg_prefix: &str, msg_span: Span, ann_span: Option<Span>, ann_prefix: &str, found_prefix: &str)
        requires
            is_check_code(code@),
        ensures
            steps(*old(self), *final(self)),
            final(self).env == old(self).env,
            is_infinite ==> adds_error(*old(self), *final(self), "E0208"@, "infinite type detected"@, err_span),
            !is_infinite ==> adds_error(*old(self), *final(self), code@,
                msg_prefix@ + display(old(self).table.resolved(expected@)) + "`, found `"@
                    + display(old(self).table.resolved(found@)) + "`"@, msg_span),
            !is_infinite ==> final(self).diagnostics@.last().labels@.len() == if ann_span is Some { 2nat } else { 1nat },
            !is_infinite ==> final(self).diagnostics@.last().labels@.last().span == msg_span
                && final(self).diagnostics@.last().labels@.last().message@
                    == found_prefix@ + display(old(self).table.resolved(found@)) + "`"@,
    {
        let e = self.table.deep_resolve(expected).display();
        let f = self.table.deep_resolve(found).display();
        if is_infinite {
            self.report(Diagnostic::error("E0208", "infinite type detected", err_span)
                .with_label(Label::new(err_span, "occurs check failure")));
        } else {
            let msg = join5(msg_prefix, &e, "`, found `", &f, "`");
            let mut d = Diagnostic::with_severity(code, Severity::Error, msg, msg_span);
            if let Some(s) = ann_span {
                d = d.with_label(Label::with_message(s, join3(ann_prefix, &e, "`")));
            }
            d = d.with_label(Label::with_message(msg_span, join3(found_prefix, &f, "`")));
            self.report(d);
        }
    }

    /// Type-check a function definition.
    fn check_fn_def(&mut self, name: &String, params: &Vec<Param>, return_type: &Option<TypeAnnotation>, body: &Expr, _span: Span)
        ensures
            steps_top(*old(self), *final(self)),
            final(self).env.fn_effects@ == old(self).env.fn_effects@,
            final(self).env.adt_defs@ == old(self).env.adt_defs@,
            final(self).env.variant_defs@ == old(self).env.variant_defs@,
            old(self).env.scopes().len() > 0 ==> final(self).env.scopes() == old(self).env.scopes()
                || (rebinds(old(self).env.scopes(), final(self).env.scopes(), name@)
                    && final(self).env.scopes().last()[name@].ty@ is Fun
                    && final(self).table.resolved(final(self).env.scopes().last()[name@].ty@)
                        == final(self).env.scopes().last()[name@].ty@),
            always_typed(*body) && old(self).env.scopes().len() > 0
                ==> rebinds(old(self).env.scopes(), final(self).env.scopes(), name@),
            lookup_scopes(old(self).env.scopes(), name@) matches Some(s) ==> (s.ty@ matches TyV::Fun(ps, rt) ==> ({
                let ctx = with_params(known_names(old(self).env.scopes()), params@, ps,
                    if params@.len() < ps.len() { params@.len() } else { ps.len() });
                let res = ops_in(ctx, *body);
                let mid = final(self).diagnostics@.subrange(0, (old(self).diagnostics@.len() + res.1.len()) as int);
                occ(*rt).len() == 0 && closed_in(ctx, *body) ==> {
                    &&& grows_by(old(self).diagnostics@, mid, res.1)
                    &&& match res.0 {
                        Some(bt) => body_checked(mid, final(self).diagnostics@, name@, return_type is Some, *rt, bt, body.span),
                        None => final(self).diagnostics@ == mid,
                    }
                }
            })),
    {
        let ghost s0 = self.env.scopes();
        self.env.push_scope();
        proof {
            assert(self.env.scopes().drop_last() =~= s0);
            lemma_known_push(s0);
        }
        let found: Option<(Vec<Type>, Type)> = match self.env.lookup(name.as_str()) {
            Some(scheme) => match &scheme.ty {
                Type::Fun(p, r) => Some((duplicate_list(p), r.duplicate())),
                _ => None,
            },
            None => None,
        };
        let (param_types, expected_ret) = match found {
            Some(pr) => pr,
            None => {
                let pts = self.fresh_vars(params.len());
                let rt = self.table.fresh_var();
                (pts, rt)
            },
        };
        let n = if params.len() < param_types.len() { params.len() } else { param_types.len() };
        let ghost t1 = self.table;
        let mut i: usize = 0;
        while i < n
            invariant
                i <= n,
                n == if params@.len() < param_types@.len() { params@.len() } else { param_types@.len() },
                n <= params@.len(),
                n <= param_types@.len(),
                self.table == t1,
                self.diagnostics@ == old(self).diagnostics@,
                steps(*old(self), *self),
                self.env.scopes().len() == s0.len() + 1,
                self.env.scopes().drop_last() == s0,
                known_names(self.env.scopes()) == with_params(known_names(s0), params@, tview_list(param_types@), i as nat),
            decreases n - i,
        {
            let ghost sc = self.env.scopes();
            let pname = params[i].name.clone();
            let sch = TypeScheme::mono(param_types[i].duplicate());
            proof {
                crate::types::lemma_tview_list(param_types@);
                lemma_known_bind(sc, pname@, sch);
            }
            self.env.bind(pname, sch);
            proof { assert(self.env.scopes().drop_last() =~= s0); }
            i = i + 1;
        }
        let ghost ctxb = known_names(self.env.scopes());
        let ghost dbefore = self.diagnostics@;
        let body_type = self.infer_expr(body);
        let ghost dafter = self.diagnostics@;
        proof {
            crate::types::lemma_tview_list(param_types@);
            if lookup_scopes(old(self).env.scopes(), name@) is Some {
                let sc = lookup_scopes(old(self).env.scopes(), name@)->0;
                if sc.ty@ is Fun {
                    let ps = sc.ty@->Fun_0;
                    let rt = *sc.ty@->Fun_1;
                    assert(tview_list(param_types@) == ps);
                    assert(expected_ret@ == rt);
                    let ctxc = with_params(known_names(old(self).env.scopes()), params@, ps,
                        if params@.len() < ps.len() { params@.len() } else { ps.len() });
                    assert(ctxb == ctxc);
                    if occ(rt).len() == 0 && closed_in(ctxc, *body) {
                        lemma_known_base(old(self).env.scopes());
                        lemma_with_params_base(known_names(old(self).env.scopes()), params@, ps,
                            if params@.len() < ps.len() { params@.len() } else { ps.len() });
                        lemma_ops_in_base(ctxc, *body);
                    }
                }
            }
        }
        if let Some(bt) = &body_type {
            let ghost tpre = self.table;
            match self.table.unify(bt, &expected_ret, body.span) {
                Ok(()) => {}
                Err(e) => {
                    proof {
                        if occ(expected_ret@).len() == 0 {
                            crate::unify::lemma_dres_ground(self.table.map(), self.table.ranks(), expected_ret@);
                        }
                    }
                    let ann_span = match return_type { Some(a) => Some(a.span), None => None };
                    if !e.is_infinite && ann_span.is_some() {
                        let prefix = join3("type mismatch in function `", name, "`: expected `");
                        self.report_unify_failure(false, e.span, &expected_ret, bt, "E0200", prefix.as_str(), body.span,
                            ann_span, "return type declared as `", "body evaluates to `");
                    } else if e.is_infinite {
                        self.report_unify_failure(true, e.span, &expected_ret, bt, "E0200", "", body.span,
                            None, "", "");
                    } else {
                        let ex = self.table.deep_resolve(&expected_ret).display();
                        let fd = self.table.deep_resolve(bt).display();
                        let msg = join5("cannot unify `", &ex, "` with `", &fd, "`");
                        let label = join5("expected `", &ex, "`, found `", &fd, "`");
                        self.report(Diagnostic::with_severity("E0205", Severity::Error, msg, e.span)
                            .with_label(Label::with_message(e.span, label)));
                    }
                }
            }
            proof {
                if occ(expected_ret@).len() == 0 {
                    crate::unify::lemma_dres_ground(tpre.map(), tpre.ranks(), expected_ret@);
                }
            }
        }
        let ghost dend = self.diagnostics@;
        proof { assert(dend.subrange(0, dafter.len() as int) =~= dafter); }
        self.env.pop_scope();
        proof { assert(self.env.scopes() =~= s0); }
        if body_type.is_some() {
            let resolved_ret = self.table.deep_resolve(&expected_ret);
            let mut resolved_params: Vec<Type> = Vec::new();
            let mut k: usize = 0;
            while k < param_types.len()
                invariant
                    k <= param_types@.len(),
                decreases param_types@.len() - k,
            {
                resolved_params.push(self.table.deep_resolve(&param_types[k]));
                k = k + 1;
            }
            let fn_type = Type::Fun(resolved_params, Box::new(resolved_ret));
            let scheme = self.env.generalize(&fn_type, &self.table);
            proof { crate::unify::lemma_resolve_idempotent(self.table, fn_type@); }
            self.env.bind(name.clone(), scheme);
        }
    }

    /// Type-check a top-level let definition.
    fn check_let_def(&mut self, name: &String, type_annotation: &Option<TypeAnnotation>, value: &Expr, _span: Span)
        ensures
            steps_top(*old(self), *final(self)),
            final(self).env.fn_effects@ == old(self).env.fn_effects@,
            final(self).env.adt_defs@ == old(self).env.adt_defs@,
            final(self).env.variant_defs@ == old(self).env.variant_defs@,
            old(self).env.scopes().len() > 0 ==> final(self).env.scopes() == old(self).env.scopes()
                || (rebinds(old(self).env.scopes(), final(self).env.scopes(), name@)
                    && final(self).table.resolved(final(self).env.scopes().last()[name@].ty@)
                        == final(self).env.scopes().last()[name@].ty@),
            always_typed(*value) && old(self).env.scopes().len() > 0
                ==> rebinds(old(self).env.scopes(), final(self).env.scopes(), name@),
            value.kind matches ExprKind::Literal { value: v } ==> (old(self).env.scopes().len() > 0
                ==> final(self).env.scopes().last()[name@].ty@ == lit_type(v)),
            type_annotation is None && closed_ops(*value)
                ==> grows_by(old(self).diagnostics@, final(self).diagnostics@, ops_infer(*value).1),
            type_annotation is None && closed_in(known_names(old(self).env.scopes()), *value)
                && old(self).env.scopes().len() > 0 ==> ({
                let ctx = known_names(old(self).env.scopes());
                let res = ops_in(ctx, *value);
                &&& grows_by(old(self).diagnostics@, final(self).diagnostics@, res.1)
                &&& known_names(final(self).env.scopes()) == match res.0 {
                    Some(t) => ctx.insert(name@, t),
                    None => ctx,
                }
                &&& final(self).env.scopes().len() == old(self).env.scopes().len()
            }),
            (type_annotation is None || base_ann(*type_annotation) is Some)
                && closed_in(known_names(old(self).env.scopes()), *value)
                && old(self).env.scopes().len() > 0 ==> ({
                let ctx = known_names(old(self).env.scopes());
                let res = ops_in(ctx, *value);
                &&& grows_by(old(self).diagnostics@, final(self).diagnostics@, let_reports(ctx, *type_annotation, *value))
                &&& known_names(final(self).env.scopes()) == match res.0 {
                    Some(t) => ctx.insert(name@, t),
                    None => ctx,
                }
                &&& final(self).env.scopes().len() == old(self).env.scopes().len()
            }),
    {
        let ghost ctx0 = known_names(self.env.scopes());
        let ghost cl = (type_annotation is None || base_ann(*type_annotation) is Some) && closed_in(ctx0, *value)
            && self.env.scopes().len() > 0;
        proof {
            if cl {
                lemma_known_base(self.env.scopes());
                lemma_ops_in_base(ctx0, *value);
            }
        }
        let inferred = self.infer_expr(value);
        if let Some(ty) = inferred {
            let ghost d1 = self.diagnostics@;
            if let Some(ann) = type_annotation {
                let no_params: Vec<String> = Vec::new();
                let expected = self.annotation_to_type(ann, &no_params);
                proof {
                    if cl {
                        let nm = ann.kind->Name_name;
                        assert(!names_param(no_params@, nm@));
                        assert(expected@ == base_ann(*type_annotation)->0);
                    }
                }
                let ghost d2 = self.diagnostics@;
                match self.table.unify(&ty, &expected, ann.span) {
                    Ok(()) => {}
                    Err(e) => {
                        self.report_unify_failure(e.is_infinite, e.span, &expected, &ty, "E0200",
                            "type mismatch: expected `", value.span, Some(ann.span), "expected `", "found `");
                        proof {
                            if cl {
                                crate::parser::lemma_grows_push(d2, self.diagnostics@.last());
                                assert(self.diagnostics@ == d2.push(self.diagnostics@.last()));
                            }
                        }
                    }
                }
                proof {
                    if cl {
                        if self.diagnostics@ == d2 {
                            crate::parser::lemma_grows_none(d2);
                        }
                        let a = base_ann(*type_annotation)->0;
                        crate::parser::lemma_grows_trans(old(self).diagnostics@, d1, self.diagnostics@,
                            ops_in(ctx0, *value).1, ann_report(a, ty@, value.span));
                    }
                }
            }
            let scheme = self.env.generalize(&ty, &self.table);
            proof {
                crate::unify::lemma_resolve_idempotent(self.table, ty@);
                let ctx = known_names(old(self).env.scopes());
                if (type_annotation is None || base_ann(*type_annotation) is Some) && closed_in(ctx, *value)
                    && old(self).env.scopes().len() > 0 {
                    lemma_known_base(old(self).env.scopes());
                    lemma_ops_in_base(ctx, *value);
                    assert(self.table.resolved(ty@) == ty@);
                    assert(occ(ty@) =~= Seq::<u32>::empty());
                    assert(add_new(seq![], occ(ty@)) =~= Seq::<u32>::empty());
                    assert(ids(scheme.vars@).len() == 0);
                    lemma_known_bind(self.env.scopes(), name@, scheme);
                }
            }
            self.env.bind(name.clone(), scheme);
        }
    }
}


impl TypeChecker {
    /// Infer the type of an expression; `None` when an error prevents it.
    /// The environment's scopes are left as they were.
    fn infer_expr(&mut self, expr: &Expr) -> (r: Option<Type>)
        ensures
            closed_ops(*expr) ==> ({
                let res = ops_infer(*expr);
                &&& opt_tyv(r) == res.0
                &&& grows_by(old(self).diagnostics@, final(self).diagnostics@, res.1)
            }),
            closed_in(known_names(old(self).env.scopes()), *expr) ==> ({
                let res = ops_in(known_names(old(self).env.scopes()), *expr);
                &&& opt_tyv(r) == res.0
                &&& grows_by(old(self).diagnostics@, final(self).diagnostics@, res.1)
            }),
            r matches Some(t) ==> shape_of(*expr, t@),
            steps(*old(self), *final(self)),
            final(self).env.scopes() == old(self).env.scopes(),
            expr.kind matches ExprKind::Literal { value } ==> r matches Some(t) && t@ == lit_type(value),
            expr.kind is Literal ==> *final(self) == *old(self),
            always_typed(*expr) ==> r is Some,
        decreases expr, 2nat,
    {
        proof {
            lemma_grows_none(self.diagnostics@);
            if closed_ops(*expr) {
                lemma_closed_in(known_names(self.env.scopes()), *expr);
            }
        }
        match &expr.kind {
            ExprKind::Literal { value } => Some(self.infer_literal(value)),
            ExprKind::Ident { name } => {
                let r = self.infer_ident(name, expr.span);
                proof {
                    if lookup_scopes(old(self).env.scopes(), name@) is Some {
                        let sc = lookup_scopes(old(self).env.scopes(), name@)->0;
                        if sc.vars@.len() == 0 {
                            assert(Seq::new(sc.vars@.len(), |k: int| (sc.vars@[k].0, TyV::Var(nth_fresh(old(self).table.next(), k as nat))))
                                =~= Seq::<(u32, TyV)>::empty());
                            crate::env::lemma_subst_empty(sc.ty@);
                        }
                    }
                }
                r
            }
            ExprKind::BinaryOp { .. } => self.infer_binop(expr),
            ExprKind::UnaryOp { .. } => self.infer_unop(expr),
            ExprKind::FnCall { .. } => self.infer_fn_call(expr),
            ExprKind::LetExpr { .. } => self.infer_let_expr(expr),
            ExprKind::IfElse { .. } => self.infer_if_else(expr),
            ExprKind::Match { .. } => self.infer_match(expr),
            ExprKind::Block { .. } => self.infer_block(expr),
            ExprKind::ListLiteral { .. } => self.infer_list_literal(expr),
            ExprKind::VariantConstruct { .. } => self.infer_variant_construct(expr),
            ExprKind::Error => None,
        }
    }

    /// Infer the type of a literal.
    fn infer_literal(&self, lit: &LitValue) -> (r: Type)
        ensures
            r@ == lit_type(*lit),
    {
        match lit {
            LitValue::Int(_) => Type::Int,
            LitValue::Float(_) => Type::Float,
            LitValue::String(_) => Type::String,
            LitValue::Bool(_) => Type::Bool,
            LitValue::Unit => Type::Unit,
        }
    }

    /// Infer the type of an identifier reference: an instance of its scheme.
    fn infer_ident(&mut self, name: &String, span: Span) -> (r: Option<Type>)
        ensures
            steps(*old(self), *final(self)),
            final(self).env == old(self).env,
            lookup_scopes(old(self).env.scopes(), name@) matches Some(s)
                ==> r matches Some(t) && t@ == instance_of(s, old(self).table.next())
                && final(self).diagnostics@ == old(self).diagnostics@,
            lookup_scopes(old(self).env.scopes(), name@) is None ==> r is None
                && adds_error(*old(self), *final(self), "E0201"@, "undefined variable `"@ + name@ + "`"@, span),
    {
        match self.env.lookup(name.as_str()) {
            Some(scheme) => {
                let s = scheme.duplicate();
                Some(self.env.instantiate(&s, &mut self.table))
            }
            None => {
                let msg = join3("undefined variable `", name, "`");
                self.report(Diagnostic::with_severity("E0201", Severity::Error, msg, span)
                    .with_label(Label::new(span, "not found in this scope")));
                None
            }
        }
    }

    /// Reports an operator applied to operands of the wrong types.
    fn report_operands(&mut self, sym: &str, what: &str, span: Span, lhs_span: Span, lhs_ty: &Type, rhs: Option<(Span, &Type)>)
        ensures
            steps(*old(self), *final(self)),
            final(self).env == old(self).env,
            rhs matches Some(p) ==> adds_error(*old(self), *final(self), "E0206"@,
                "operator `"@ + sym@ + "` requires "@ + what@ + display(old(self).table.resolved(lhs_ty@))
                    + "` and `"@ + display(old(self).table.resolved(p.1@)) + "`"@, span),
            rhs is None ==> adds_error(*old(self), *final(self), "E0206"@,
                "operator `"@ + sym@ + "` requires "@ + what@ + display(old(self).table.resolved(lhs_ty@))
                    + "`"@ + ""@, span),
    {
        let l = self.table.deep_resolve(lhs_ty).display();
        match rhs {
            Some((rhs_span, rhs_ty)) => {
                let r = self.table.deep_resolve(rhs_ty).display();
                let msg = join7("operator `", sym, "` requires ", what, l.as_str(), "` and `", r.as_str());
                let msg = cat(msg, "`");
                self.report(Diagnostic::with_severity("E0206", Severity::Error, msg, span)
                    .with_label(Label::with_message(lhs_span, join3("type `", &l, "`")))
                    .with_label(Label::with_message(rhs_span, join3("type `", &r, "`"))));
            }
            None => {
                let msg = join7("operator `", sym, "` requires ", what, l.as_str(), "`", "");
                self.report(Diagnostic::with_severity("E0206", Severity::Error, msg, span)
                    .with_label(Label::with_message(lhs_span, join3("type `", &l, "`"))));
            }
        }
    }

    /// Infer the type of a binary operation.
    #[verifier::spinoff_prover]
    #[verifier::rlimit(80)]
    fn infer_binop(&mut self, expr: &Expr) -> (r: Option<Type>)
        ensures
            expr.kind is BinaryOp && closed_in(known_names(old(self).env.scopes()), *expr) ==> ({
                let res = ops_in(known_names(old(self).env.scopes()), *expr);
                &&& opt_tyv(r) == res.0
                &&& grows_by(old(self).diagnostics@, final(self).diagnostics@, res.1)
            }),
            r matches Some(t) ==> shape_of(*expr, t@),
            steps(*old(self), *final(self)),
            final(self).env.scopes() == old(self).env.scopes(),
            expr.kind matches ExprKind::BinaryOp { op, .. } ==> (r matches Some(t) ==> binop_yields(op, t@)),
            expr.kind matches ExprKind::BinaryOp { op, lhs, rhs } ==> (lhs.kind matches ExprKind::Literal { value: a }
                ==> (rhs.kind matches ExprKind::Literal { value: b }
                ==> (known_binop(op, lit_type(a), lit_type(b)) matches Some(u) ==> (r matches Some(t) && t@ == u)))),
            expr.kind matches ExprKind::BinaryOp { op, lhs, rhs } ==> (lhs.kind matches ExprKind::Literal { value: a }
                ==> (rhs.kind matches ExprKind::Literal { value: b }
                ==> (known_binop(op, lit_type(a), lit_type(b)) is None ==> r is None && ({
                    let (m, sp) = operand_error(op, lit_type(a), lit_type(b), expr.span, lhs.span, rhs.span);
                    appends_error(old(self).diagnostics@, final(self).diagnostics@, "E0206"@, m, sp)
                })))),
            !(expr.kind is BinaryOp) ==> r is None && *final(self) == *old(self),
        decreases expr, 1nat,
    {
        match &expr.kind {
            ExprKind::BinaryOp { op, lhs, rhs } => {
                let span = expr.span;
                let op = *op;
                let ghost d0 = self.diagnostics@;
                let ghost ctx = known_names(self.env.scopes());
                let ghost closed = closed_in(ctx, *expr);
                proof { lemma_known_base(self.env.scopes()); }
                let lhs_ty = match self.infer_expr(lhs) { Some(t) => t, None => return None };
                let ghost dl = self.diagnostics@;
                let rhs_ty = match self.infer_expr(rhs) {
                    Some(t) => t,
                    None => {
                        proof {
                            if closed {
                                lemma_grows_trans(d0, dl, self.diagnostics@, ops_in(ctx, **lhs).1, ops_in(ctx, **rhs).1);
                            }
                        }
                        return None;
                    }
                };
                let ghost dr = self.diagnostics@;
                let ghost acc = ops_in(ctx, **lhs).1 + ops_in(ctx, **rhs).1;
                proof {
                    if closed {
                        lemma_grows_trans(d0, dl, dr, ops_in(ctx, **lhs).1, ops_in(ctx, **rhs).1);
                        lemma_ops_in_base(ctx, **lhs);
                        lemma_ops_in_base(ctx, **rhs);
                    }
                }
                let sym = binop_symbol(op);
                match op {
                    BinOp::Add | BinOp::Sub | BinOp::Mul | BinOp::Div | BinOp::Mod => {
                        if self.table.unify(&lhs_ty, &rhs_ty, span).is_err() {
                            self.report_operands(sym, "matching types, found `", span, lhs.span, &lhs_ty, Some((rhs.span, &rhs_ty)));
                            proof { if closed { lemma_grows_append(d0, dr, self.diagnostics@, acc); } }
                            return None;
                        }
                        let resolved = self.table.deep_resolve(&lhs_ty);
                        match &resolved {
                            Type::Int | Type::Float | Type::Var(_) => Some(resolved),
                            _ => {
                                let msg = join5("operator `", &owned(sym), "` requires numeric types, found `", &resolved.display(), "`");
                                self.report(Diagnostic::with_severity("E0206", Severity::Error, msg, span)
                                    .with_label(Label::new(span, "numeric type required")));
                                proof { if closed { lemma_grows_append(d0, dr, self.diagnostics@, acc); } }
                                None
                            }
                        }
                    }
                    BinOp::Concat => {
                        if self.table.unify(&lhs_ty, &Type::String, lhs.span).is_err() {
                            self.report_operands("++", "String, found `", lhs.span, lhs.span, &lhs_ty, None);
                            proof { if closed { lemma_grows_append(d0, dr, self.diagnostics@, acc); } }
                            return None;
                        }
                        if self.table.unify(&rhs_ty, &Type::String, rhs.span).is_err() {
                            self.report_operands("++", "String, found `", rhs.span, rhs.span, &rhs_ty, None);
                            proof { if closed { lemma_grows_append(d0, dr, self.diagnostics@, acc); } }
                            return None;
                        }
                        Some(Type::String)
                    }
                    BinOp::Eq | BinOp::Ne | BinOp::Lt | BinOp::Le | BinOp::Gt | BinOp::Ge => {
                        if self.table.unify(&lhs_ty, &rhs_ty, span).is_err() {
                            self.report_operands(sym, "matching types, found `", span, lhs.span, &lhs_ty, Some((rhs.span, &rhs_ty)));
                            proof { if closed { lemma_grows_append(d0, dr, self.diagnostics@, acc); } }
                            return None;
                        }
                        Some(Type::Bool)
                    }
                    BinOp::And | BinOp::Or => {
                        if self.table.unify(&lhs_ty, &Type::Bool, lhs.span).is_err() {
                            self.report_operands(sym, "Bool, found `", lhs.span, lhs.span, &lhs_ty, None);
                            proof { if closed { lemma_grows_append(d0, dr, self.diagnostics@, acc); } }
                            return None;
                        }
                        if self.table.unify(&rhs_ty, &Type::Bool, rhs.span).is_err() {
                            self.report_operands(sym, "Bool, found `", rhs.span, rhs.span, &rhs_ty, None);
                            proof { if closed { lemma_grows_append(d0, dr, self.diagnostics@, acc); } }
                            return None;
                        }
                        Some(Type::Bool)
                    }
                }
            }
            _ => None,
        }
    }

    /// Infer the type of a unary operation.
    fn infer_unop(&mut self, expr: &Expr) -> (r: Option<Type>)
        ensures
            expr.kind is UnaryOp && closed_in(known_names(old(self).env.scopes()), *expr) ==> ({
                let res = ops_in(known_names(old(self).env.scopes()), *expr);
                &&& opt_tyv(r) == res.0
                &&& grows_by(old(self).diagnostics@, final(self).diagnostics@, res.1)
            }),
            r matches Some(t) ==> shape_of(*expr, t@),
            steps(*old(self), *final(self)),
            final(self).env.scopes() == old(self).env.scopes(),
            expr.kind matches ExprKind::UnaryOp { op: UnOp::Not, .. } ==> (r matches Some(t) ==> t@ == TyV::Bool),
            expr.kind matches ExprKind::UnaryOp { op, operand } ==> (operand.kind matches ExprKind::Literal { value: a } ==> (
                (op == UnOp::Not && lit_type(a) == TyV::Bool) || (op == UnOp::Neg && (lit_type(a) is Int || lit_type(a) is Float))
                ==> (r matches Some(t) && t@ == lit_type(a)))),
            expr.kind matches ExprKind::UnaryOp { op: UnOp::Neg, .. } ==> (r matches Some(t) ==> ({
                let u = final(self).table.resolved(t@);
                u is Int || u is Float || u is Var
            })),
            !(expr.kind is UnaryOp) ==> r is None && *final(self) == *old(self),
        decreases expr, 1nat,
    {
        match &expr.kind {
            ExprKind::UnaryOp { op, operand } => {
                let span = expr.span;
                let ghost d0 = self.diagnostics@;
                let ghost ctx = known_names(self.env.scopes());
                let ghost closed = closed_in(ctx, *expr);
                proof { lemma_known_base(self.env.scopes()); }
                let operand_ty = match self.infer_expr(operand) { Some(t) => t, None => return None };
                let ghost dr = self.diagnostics@;
                let ghost acc = ops_in(ctx, **operand).1;
                proof { if closed { lemma_ops_in_base(ctx, **operand); } }
                match op {
                    UnOp::Not => {
                        if self.table.unify(&operand_ty, &Type::Bool, operand.span).is_err() {
                            self.report_operands("!", "Bool, found `", span, operand.span, &operand_ty, None);
                            proof { if closed { lemma_grows_append(d0, dr, self.diagnostics@, acc); } }
                            return None;
                        }
                        Some(Type::Bool)
                    }
                    UnOp::Neg => {
                        let resolved = self.table.deep_resolve(&operand_ty);
                        proof { crate::unify::lemma_resolve_idempotent(self.table, operand_ty@); }
                        match &resolved {
                            Type::Int | Type::Float => Some(resolved),
                            Type::Var(_) => Some(operand_ty),
                            _ => {
                                self.report_operands("-", "numeric type, found `", span, operand.span, &operand_ty, None);
                                proof { if closed { lemma_grows_append(d0, dr, self.diagnostics@, acc); } }
                                None
                            }
                        }
                    }
                }
            }
            _ => None,
        }
    }

    /// Infer the types of the arguments of a call, a fresh variable for each
    /// argument whose type cannot be inferred.
    fn infer_args(&mut self, parent: &Expr, args: &Vec<Expr>) -> (r: Vec<Type>)
        requires
            forall|k: int| 0 <= k < args@.len() ==> decreases_to!(parent => #[trigger] args@[k]),
        ensures
            steps(*old(self), *final(self)),
            final(self).env.scopes() == old(self).env.scopes(),
            r@.len() == args@.len(),
        decreases parent, 0nat,
    {
        let mut arg_types: Vec<Type> = Vec::new();
        let mut i: usize = 0;
        while i < args.len()
            invariant
                i <= args@.len(),
                arg_types@.len() == i,
                forall|k: int| 0 <= k < args@.len() ==> decreases_to!(parent => #[trigger] args@[k]),
                steps(*old(self), *self),
                self.env.scopes() == old(self).env.scopes(),
            decreases args@.len() - i,
        {
            proof { assert(decreases_to!(parent => args@[i as int])); }
            match self.infer_expr(&args[i]) {
                Some(t) => arg_types.push(t),
                None => arg_types.push(self.table.fresh_var()),
            }
            i = i + 1;
        }
        arg_types
    }

    /// Infer the type of a function call.
    fn infer_fn_call(&mut self, expr: &Expr) -> (r: Option<Type>)
        ensures
            r matches Some(t) ==> shape_of(*expr, t@),
            r matches Some(t) ==> final(self).table.resolved(t@) == t@,
            steps(*old(self), *final(self)),
            final(self).env.scopes() == old(self).env.scopes(),
        decreases expr, 1nat,
    {
        match &expr.kind {
            ExprKind::FnCall { callee, args } => {
                let span = expr.span;
                let callee_ty = match self.infer_expr(callee) { Some(t) => t, None => return None };
                let arg_types = self.infer_args(expr, args);
                let ret_var = self.table.fresh_var();
                let expected_fn_type = Type::Fun(duplicate_list(&arg_types), Box::new(ret_var.duplicate()));
                if self.table.unify(&callee_ty, &expected_fn_type, span).is_err() {
                    let resolved_callee = self.table.deep_resolve(&callee_ty);
                    match &resolved_callee {
                        Type::Fun(params, _) => {
                            if params.len() != args.len() {
                                let p = usize_to_string(params.len());
                                let a = usize_to_string(args.len());
                                let msg = join5("wrong number of arguments: expected ", &p, ", found ", &a, "");
                                let label = join3("expected ", &p, " argument(s)");
                                self.report(Diagnostic::with_severity("E0204", Severity::Error, msg, span)
                                    .with_label(Label::with_message(span, label)));
                            } else {
                                self.report(Diagnostic::error("E0200", "type mismatch in function call", span)
                                    .with_label(Label::new(span, "argument type mismatch")));
                            }
                        }
                        _ => {
                            let msg = join3("type mismatch: expected function, found `", &resolved_callee.display(), "`");
                            self.report(Diagnostic::with_severity("E0200", Severity::Error, msg, span)
                                .with_label(Label::new(callee.span, "not a function")));
                        }
                    }
                    return None;
                }
                let rt = self.table.deep_resolve(&ret_var);
                proof { crate::unify::lemma_resolve_idempotent(self.table, ret_var@); }
                Some(rt)
            }
            _ => None,
        }
    }

    /// Infer the type of a let expression: the value's type is generalized
    /// and bound for the body, in a scope of its own.
    fn infer_let_expr(&mut self, expr: &Expr) -> (r: Option<Type>)
        ensures
            r matches Some(t) ==> shape_of(*expr, t@),
            expr.kind is LetExpr && always_typed(*expr) ==> r is Some,
            expr.kind is LetExpr && closed_in(known_names(old(self).env.scopes()), *expr) ==> ({
                let res = ops_in(known_names(old(self).env.scopes()), *expr);
                &&& opt_tyv(r) == res.0
                &&& grows_by(old(self).diagnostics@, final(self).diagnostics@, res.1)
            }),
            steps(*old(self), *final(self)),
            final(self).env.scopes() == old(self).env.scopes(),
        decreases expr, 1nat,
    {
        match &expr.kind {
            ExprKind::LetExpr { name, type_annotation, value, body } => {
                let ghost ctx = known_names(self.env.scopes());
                let ghost cl = closed_in(ctx, *expr);
                let ghost d0 = self.diagnostics@;
                proof {
                    if cl {
                        lemma_known_base(self.env.scopes());
                        lemma_ops_in_base(ctx, **value);
                    }
                }
                let val_ty = match self.infer_expr(value) { Some(t) => t, None => return None };
                let ghost d1 = self.diagnostics@;
                let ghost da: Seq<DiagV> = match base_ann(*type_annotation) {
                    Some(a) => ann_report(a, val_ty@, value.span),
                    None => seq![],
                };
                proof { crate::parser::lemma_grows_none(d1); }
                if let Some(ann) = type_annotation {
                    let no_params: Vec<String> = Vec::new();
                    let expected = self.annotation_to_type(ann, &no_params);
                    proof {
                        if cl {
                            let nm = ann.kind->Name_name;
                            assert(!names_param(no_params@, nm@));
                            assert(expected@ == base_ann(*type_annotation)->0);
                        }
                    }
                    let ghost d2 = self.diagnostics@;
                    if self.table.unify(&val_ty, &expected, ann.span).is_err() {
                        self.report_unify_failure(false, ann.span, &expected, &val_ty, "E0200",
                            "type mismatch: expected `", value.span, Some(ann.span), "expected `", "found `");
                        proof {
                            if cl {
                                crate::parser::lemma_grows_push(d2, self.diagnostics@.last());
                                assert(self.diagnostics@ == d2.push(self.diagnostics@.last()));
                            }
                        }
                    } else {
                        proof { if cl { crate::parser::lemma_grows_none(d2); } }
                    }
                }
                let ghost d1a = self.diagnostics@;
                proof {
                    if cl {
                        assert(grows_by(d1, d1a, da));
                    }
                }
                let ghost s0 = self.env.scopes();
                let scheme = self.env.generalize(&val_ty, &self.table);
                proof {
                    if cl {
                        crate::unify::lemma_resolve_idempotent(self.table, val_ty@);
                        assert(self.table.resolved(val_ty@) == val_ty@);
                        assert(occ(val_ty@) =~= Seq::<u32>::empty());
                        assert(add_new(seq![], occ(val_ty@)) =~= Seq::<u32>::empty());
                        assert(ids(scheme.vars@).len() == 0);
                    }
                }
                self.env.push_scope();
                let ghost s1 = self.env.scopes();
                self.env.bind(name.clone(), scheme);
                proof {
                    if cl {
                        lemma_known_push(s0);
                        lemma_known_bind(s1, name@, scheme);
                        assert(known_names(self.env.scopes()) == ctx.insert(name@, val_ty@));
                    }
                }
                let body_ty = self.infer_expr(body);
                proof {
                    if cl {
                        crate::parser::lemma_grows_trans(d0, d1, d1a, ops_in(ctx, **value).1, da);
                        crate::parser::lemma_grows_trans(d0, d1a, self.diagnostics@, ops_in(ctx, **value).1 + da,
                            ops_in(ctx.insert(name@, val_ty@), **body).1);
                    }
                }
                self.env.pop_scope();
                proof {
                    assert(self.env.scopes() =~= s0);
                }
                body_ty
            }
            _ => None,
        }
    }

    /// Infer the type of an if-else expression.
    #[verifier::spinoff_prover]
    #[verifier::rlimit(60)]
    fn infer_if_else(&mut self, expr: &Expr) -> (r: Option<Type>)
        ensures
            r matches Some(t) ==> shape_of(*expr, t@),
            expr.kind matches ExprKind::IfElse { condition, then_branch, else_branch } ==> (
                then_branch.kind matches ExprKind::Literal { value: a } ==> (else_branch.kind matches ExprKind::Literal { value: b }
                ==> (always_typed(*condition) && lit_type(a) == lit_type(b) ==> (r matches Some(t) && t@ == lit_type(a))))),
            expr.kind is IfElse && closed_in(known_names(old(self).env.scopes()), *expr) ==> ({
                let res = ops_in(known_names(old(self).env.scopes()), *expr);
                &&& opt_tyv(r) == res.0
                &&& grows_by(old(self).diagnostics@, final(self).diagnostics@, res.1)
            }),
            steps(*old(self), *final(self)),
            final(self).env.scopes() == old(self).env.scopes(),
        decreases expr, 1nat,
    {
        match &expr.kind {
            ExprKind::IfElse { condition, then_branch, else_branch } => {
                let ghost ctx = known_names(self.env.scopes());
                let ghost cl = closed_in(ctx, *expr);
                let ghost d0 = self.diagnostics@;
                proof {
                    if cl {
                        lemma_known_base(self.env.scopes());
                        lemma_ops_in_base(ctx, **condition);
                        lemma_ops_in_base(ctx, **then_branch);
                        lemma_ops_in_base(ctx, **else_branch);
                    }
                }
                let span = expr.span;
                let cond_ty = match self.infer_expr(condition) { Some(t) => t, None => return None };
                let ghost d1 = self.diagnostics@;
                let ghost rc = ops_in(ctx, **condition);
                let ghost tc = cond_ty@;
                let ghost dcond: Seq<DiagV> = if tc == TyV::Bool { seq![] } else {
                    seq![DiagV { code: "E0200"@, message: "if condition must be Bool, found `"@ + display(tc) + "`"@,
                        span: condition.span }] };
                if self.table.unify(&cond_ty, &Type::Bool, condition.span).is_err() {
                    let ghost dd = self.diagnostics@;
                    let resolved = self.table.deep_resolve(&cond_ty).display();
                    let msg = join3("if condition must be Bool, found `", &resolved, "`");
                    self.report(Diagnostic::with_severity("E0200", Severity::Error, msg, condition.span)
                        .with_label(Label::with_message(condition.span, join3("type `", &resolved, "`"))));
                    proof {
                        if cl {
                            crate::parser::lemma_grows_push(dd, self.diagnostics@.last());
                            assert(self.diagnostics@ == dd.push(self.diagnostics@.last()));
                        }
                    }
                } else {
                    proof { if cl { crate::parser::lemma_grows_none(self.diagnostics@); } }
                }
                let ghost d2 = self.diagnostics@;
                proof {
                    if cl {
                        assert(grows_by(d1, d2, dcond));
                        crate::parser::lemma_grows_trans(d0, d1, d2, rc.1, dcond);
                        if tc == TyV::Bool {
                            assert(rc.1 + dcond =~= rc.1);
                        } else {
                            assert(rc.1 + dcond =~= rc.1.push(dcond[0]));
                        }
                    }
                }
                let then_ty = self.infer_expr(then_branch);
                let ghost d3 = self.diagnostics@;
                let else_ty = self.infer_expr(else_branch);
                let ghost d4 = self.diagnostics@;
                let ghost ra = ops_in(ctx, **then_branch);
                let ghost rb = ops_in(ctx, **else_branch);
                proof {
                    if cl {
                        crate::parser::lemma_grows_trans(d0, d2, d3, rc.1 + dcond, ra.1);
                        crate::parser::lemma_grows_trans(d0, d3, d4, rc.1 + dcond + ra.1, rb.1);
                    }
                }
                match (then_ty, else_ty) {
                    (Some(t), Some(e)) => {
                        if self.table.unify(&t, &e, span).is_err() {
                            let ghost dd = self.diagnostics@;
                            let rt = self.table.deep_resolve(&t).display();
                            let re = self.table.deep_resolve(&e).display();
                            let msg = join5("if branches have incompatible types: `", &rt, "` and `", &re, "`");
                            self.report(Diagnostic::with_severity("E0200", Severity::Error, msg, span)
                                .with_label(Label::with_message(then_branch.span, join3("type `", &rt, "`")))
                                .with_label(Label::with_message(else_branch.span, join3("type `", &re, "`"))));
                            proof {
                                if cl {
                                    crate::parser::lemma_grows_append(d0, dd, self.diagnostics@, rc.1 + dcond + ra.1 + rb.1);
                                }
                            }
                            return None;
                        }
                        let rt = self.table.deep_resolve(&t);
                        proof { lemma_shape_resolved(**then_branch, t@, self.table); }
                        Some(rt)
                    }
                    (Some(t), None) => Some(t),
                    (None, Some(e)) => Some(e),
                    (None, None) => None,
                }
            }
            _ => None,
        }
    }

    /// Infer the type of a block: the type of its last expression (`Unit`
    /// for an empty block).
    fn infer_block(&mut self, expr: &Expr) -> (r: Option<Type>)
        ensures
            r matches Some(t) ==> shape_of(*expr, t@),
            expr.kind is Block && always_typed(*expr) ==> r is Some,
            expr.kind matches ExprKind::Block { exprs } && exprs@.len() == 0
                ==> (r matches Some(t) && t@ == TyV::Unit) && *final(self) == *old(self),
            expr.kind is Block && closed_in(known_names(old(self).env.scopes()), *expr) ==> ({
                let res = ops_in(known_names(old(self).env.scopes()), *expr);
                &&& opt_tyv(r) == res.0
                &&& grows_by(old(self).diagnostics@, final(self).diagnostics@, res.1)
            }),
            steps(*old(self), *final(self)),
            final(self).env.scopes() == old(self).env.scopes(),
        decreases expr, 1nat,
    {
        match &expr.kind {
            ExprKind::Block { exprs } => {
                if exprs.len() == 0 {
                    proof {
                        lemma_grows_none(self.diagnostics@);
                        let ctx0 = known_names(self.env.scopes());
                        assert(ops_seq(ctx0, exprs@) == (Some(TyV::Unit), Seq::<DiagV>::empty()));
                        assert(ops_in(ctx0, *expr) == ops_seq(ctx0, exprs@));
                    }
                    return Some(Type::Unit);
                }
                let mut last_ty: Option<Type> = None;
                let mut i: usize = 0;
                let ghost ctx = known_names(self.env.scopes());
                let ghost closed = closed_in(ctx, *expr);
                let ghost d0 = self.diagnostics@;
                proof {
                    assert forall|k: int| 0 <= k < exprs@.len() implies decreases_to!(expr => #[trigger] exprs@[k]) by {}
                    lemma_grows_none(d0);
                    assert(exprs@.subrange(0, 0) =~= Seq::<Expr>::empty());
                    assert(closed ==> closed_all(ctx, exprs@));
                }
                while i < exprs.len()
                    invariant
                        i <= exprs@.len(),
                        ctx == known_names(self.env.scopes()),
                        d0 == old(self).diagnostics@,
                        closed == closed_in(ctx, *expr),
                        closed ==> closed_all(ctx, exprs@),
                        closed ==> grows_by(d0, self.diagnostics@, ops_seq(ctx, exprs@.subrange(0, i as int)).1),
                        closed && i > 0 ==> opt_tyv(last_ty) == ops_seq(ctx, exprs@.subrange(0, i as int)).0,
                        i > 0 ==> (last_ty matches Some(t) ==> shape_of(exprs@[i - 1], t@)),
                        i > 0 && always_typed(exprs@[i - 1]) ==> last_ty is Some,
                        forall|k: int| 0 <= k < exprs@.len() ==> decreases_to!(expr => #[trigger] exprs@[k]),
                        steps(*old(self), *self),
                        self.env.scopes() == old(self).env.scopes(),
                    decreases exprs@.len() - i,
                {
                    proof { assert(decreases_to!(expr => exprs@[i as int])); }
                    let ghost before = self.diagnostics@;
                    last_ty = self.infer_expr(&exprs[i]);
                    proof {
                        if closed {
                            lemma_closed_all_elem(ctx, exprs@, i as int);
                            let pre = exprs@.subrange(0, i as int);
                            let pre1 = exprs@.subrange(0, i + 1);
                            assert(pre1.drop_last() =~= pre);
                            assert(pre1.last() == exprs@[i as int]);
                            lemma_grows_trans(d0, before, self.diagnostics@, ops_seq(ctx, pre).1, ops_in(ctx, exprs@[i as int]).1);
                        }
                    }
                    i = i + 1;
                }
                proof {
                    if closed {
                        assert(exprs@.subrange(0, exprs@.len() as int) =~= exprs@);
                    }
                }
                last_ty
            }
            _ => None,
        }
    }

    /// Infer the type of a list literal: all elements have one type.
    fn infer_list_literal(&mut self, expr: &Expr) -> (r: Option<Type>)
        ensures
            r matches Some(t) ==> shape_of(*expr, t@),
            expr.kind is ListLiteral && always_typed(*expr) ==> r is Some,
            expr.kind matches ExprKind::ListLiteral { elements } ==> (r matches Some(t) && ({
                let elem = if elements@.len() == 0 {
                    TyV::Var(old(self).table.next())
                } else {
                    final(self).table.resolved(TyV::Var(old(self).table.next()))
                };
                t@ == TyV::List(Box::new(elem))
            })),
            expr.kind matches ExprKind::ListLiteral { elements } && elements@.len() == 0
                ==> final(self).diagnostics@ == old(self).diagnostics@,
            steps(*old(self), *final(self)),
            final(self).env.scopes() == old(self).env.scopes(),
        decreases expr, 1nat,
    {
        match &expr.kind {
            ExprKind::ListLiteral { elements } => {
                let span = expr.span;
                if elements.len() == 0 {
                    return Some(Type::List(Box::new(self.table.fresh_var())));
                }
                let elem_var = self.table.fresh_var();
                let mut i: usize = 0;
                proof {
                    assert forall|k: int| 0 <= k < elements@.len() implies decreases_to!(expr => #[trigger] elements@[k]) by {}
                }
                while i < elements.len()
                    invariant
                        i <= elements@.len(),
                        forall|k: int| 0 <= k < elements@.len() ==> decreases_to!(expr => #[trigger] elements@[k]),
                        steps(*old(self), *self),
                        self.env.scopes() == old(self).env.scopes(),
                    decreases elements@.len() - i,
                {
                    proof { assert(decreases_to!(expr => elements@[i as int])); }
                    let elem = &elements[i];
                    if let Some(et) = self.infer_expr(elem) {
                        if self.table.unify(&et, &elem_var, elem.span).is_err() {
                            let ex = self.table.deep_resolve(&elem_var).display();
                            let fd = self.table.deep_resolve(&et).display();
                            let msg = join5("list elements have incompatible types: `", &ex, "` and `", &fd, "`");
                            self.report(Diagnostic::with_severity("E0200", Severity::Error, msg, elem.span)
                                .with_label(Label::with_message(span, join3("expected `", &ex, "`")))
                                .with_label(Label::with_message(elem.span, join3("found `", &fd, "`"))));
                        }
                    }
                    i = i + 1;
                }
                Some(Type::List(Box::new(self.table.deep_resolve(&elem_var))))
            }
            _ => None,
        }
    }
}


impl TypeChecker {
    /// Infer the type of a match expression: each arm's pattern is checked
    /// against the scrutinee in a scope of its own, and all arm bodies have
    /// one type.
    #[verifier::spinoff_prover]
    #[verifier::rlimit(60)]
    fn infer_match(&mut self, expr: &Expr) -> (r: Option<Type>)
        ensures
            r matches Some(t) ==> shape_of(*expr, t@),
            expr.kind is Match && always_typed(*expr) ==> r is Some,
            expr.kind matches ExprKind::Match { arms, .. } && arms@.len() > 0
                ==> (r matches Some(t) ==> final(self).table.resolved(t@) == t@),
            expr.kind matches ExprKind::Match { arms, .. } && arms@.len() == 0 ==> (r matches Some(t) ==> t@ is Var),
            expr.kind is Match && closed_in(known_names(old(self).env.scopes()), *expr) ==> ({
                let res = ops_in(known_names(old(self).env.scopes()), *expr);
                &&& opt_tyv(r) == res.0
                &&& grows_by(old(self).diagnostics@, final(self).diagnostics@, res.1)
            }),
            steps(*old(self), *final(self)),
            final(self).env.scopes() == old(self).env.scopes(),
        decreases expr, 1nat,
    {
        match &expr.kind {
            ExprKind::Match { scrutinee, arms } => {
                let ghost ctx = known_names(self.env.scopes());
                let ghost cl = closed_in(ctx, *expr);
                let ghost d0 = self.diagnostics@;
                proof {
                    if cl {
                        lemma_known_base(self.env.scopes());
                        lemma_ops_in_base(ctx, **scrutinee);
                    }
                }
                let scrutinee_ty = match self.infer_expr(scrutinee) { Some(t) => t, None => return None };
                let ghost ts = scrutinee_ty@;
                let ghost ds = ops_in(ctx, **scrutinee).1;
                if arms.len() == 0 {
                    return Some(self.table.fresh_var());
                }
                let ghost s0 = self.env.scopes();
                let mut result_ty: Option<Type> = None;
                let mut i: usize = 0;
                proof {
                    assert forall|k: int| 0 <= k < arms@.len() implies decreases_to!(expr => #[trigger] arms@[k].body) by {
                        assert(decreases_to!(expr => arms@[k]));
                    }
                    if cl {
                        assert(arms@.subrange(0, 0) =~= Seq::<MatchArm>::empty());
                        assert(ds + Seq::<DiagV>::empty() =~= ds);
                    }
                }
                while i < arms.len()
                    invariant
                        i <= arms@.len(),
                        forall|k: int| 0 <= k < arms@.len() ==> decreases_to!(expr => #[trigger] arms@[k].body),
                        steps(*old(self), *self),
                        self.env.scopes() == s0,
                        s0 == old(self).env.scopes(),
                        result_ty matches Some(t) ==> exists|k: int| 0 <= k < i && shape_of(#[trigger] arms@[k].body, t@),
                        (exists|k: int| 0 <= k < i && always_typed(#[trigger] arms@[k].body)) ==> result_ty is Some,
                        ctx == known_names(s0),
                        ts == scrutinee_ty@,
                        cl ==> is_base(ts) && closed_arms(ctx, ts, arms@) && base_ctx(ctx),
                        cl ==> ({
                            let fa = ops_arms(ctx, ts, arms@.subrange(0, i as int));
                            &&& opt_tyv(result_ty) == fa.0
                            &&& grows_by(d0, self.diagnostics@, ds + fa.1)
                        }),
                    decreases arms@.len() - i,
                {
                    let arm = &arms[i];
                    let ghost dstart = self.diagnostics@;
                    let ghost fa = ops_arms(ctx, ts, arms@.subrange(0, i as int));
                    proof {
                        if cl {
                            lemma_closed_arms_elem(ctx, ts, arms@, i as int);
                            lemma_known_push(s0);
                            lemma_ops_arms_base(ctx, ts, arms@.subrange(0, i as int));
                        }
                    }
                    self.env.push_scope();
                    let ghost s1 = self.env.scopes();
                    let pattern_ty = self.infer_pattern(&arm.pattern, &scrutinee_ty);
                    let ghost s2 = self.env.scopes();
                    let ghost dpat0 = self.diagnostics@;
                    if let Some(pt) = &pattern_ty {
                        if self.table.unify(&scrutinee_ty, pt, arm.pattern.span).is_err() {
                            let ghost dd = self.diagnostics@;
                            let rs = self.table.deep_resolve(&scrutinee_ty).display();
                            let rp = self.table.deep_resolve(pt).display();
                            let msg = join5("pattern type `", &rp, "` does not match scrutinee type `", &rs, "`");
                            self.report(Diagnostic::with_severity("E0200", Severity::Error, msg, arm.pattern.span)
                                .with_label(Label::with_message(scrutinee.span, join3("scrutinee is `", &rs, "`")))
                                .with_label(Label::with_message(arm.pattern.span, join3("pattern expects `", &rp, "`"))));
                            proof {
                                if cl {
                                    crate::parser::lemma_grows_push(dd, self.diagnostics@.last());
                                    assert(self.diagnostics@ == dd.push(self.diagnostics@.last()));
                                }
                            }
                        } else {
                            proof { if cl { crate::parser::lemma_grows_none(self.diagnostics@); } }
                        }
                    }
                    let ghost dpat = self.diagnostics@;
                    proof {
                        if cl {
                            let p = arms@[i as int].pattern;
                            if p.kind is Ident {
                                let x = p.kind->Ident_name@;
                                let sb = s2[s2.len() - 1][x];
                                lemma_known_bind(s1, x, sb);
                            }
                            assert(known_names(s2) == arm_ctx(ctx, p, ts));
                            assert(grows_by(dpat0, dpat, pattern_report(p, ts)));
                        }
                    }
                    proof { assert(decreases_to!(expr => arms@[i as int].body)); }
                    let body_ty = self.infer_expr(&arm.body);
                    let ghost s3 = self.env.scopes();
                    let ghost dbody = self.diagnostics@;
                    self.env.pop_scope();
                    proof {
                        assert(s1 == s0.push(Map::empty()));
                        assert forall|j: int| 0 <= j < s0.len() implies #[trigger] self.env.scopes()[j] == s0[j] by {
                            assert(s3[j] == s1[j]);
                            assert(s1[j] == s0[j]);
                        }
                        assert(self.env.scopes() =~= s0);
                    }
                    let ghost pr = if cl { pattern_report(arms@[i as int].pattern, ts) } else { seq![] };
                    let ghost db = if cl { ops_in(arm_ctx(ctx, arms@[i as int].pattern, ts), arms@[i as int].body).1 } else { seq![] };
                    proof {
                        if cl {
                            crate::parser::lemma_grows_trans(d0, dstart, dpat, ds + fa.1, pr);
                            crate::parser::lemma_grows_trans(d0, dpat, dbody, ds + fa.1 + pr, db);
                            lemma_ops_in_base(arm_ctx(ctx, arms@[i as int].pattern, ts), arms@[i as int].body);
                        }
                    }
                    if let Some(bt) = body_ty {
                        match &result_ty {
                            Some(rt) => {
                                if self.table.unify(rt, &bt, arm.body.span).is_err() {
                                    let ghost dd = self.diagnostics@;
                                    let ex = self.table.deep_resolve(rt).display();
                                    let fd = self.table.deep_resolve(&bt).display();
                                    let msg = join5("match arms have incompatible types: `", &ex, "` and `", &fd, "`");
                                    self.report(Diagnostic::with_severity("E0200", Severity::Error, msg, arm.body.span)
                                        .with_label(Label::with_message(arm.body.span, join3("this arm returns `", &fd, "`"))));
                                    proof {
                                        if cl {
                                            crate::parser::lemma_grows_append(d0, dd, self.diagnostics@, ds + fa.1 + pr + db);
                                        }
                                    }
                                }
                            }
                            None => {
                                result_ty = Some(bt);
                            }
                        }
                    }
                    proof {
                        if cl {
                            let sub = arms@.subrange(0, i + 1);
                            assert(sub.drop_last() =~= arms@.subrange(0, i as int));
                            assert(sub.last() == arms@[i as int]);
                            let fb = ops_arms(ctx, ts, sub);
                            assert(ds + fa.1 + pr + db =~= ds + (fa.1 + pr + db));
                            if fb.1.len() > (fa.1 + pr + db).len() {
                                assert(ds + fb.1 =~= (ds + (fa.1 + pr + db)).push(fb.1.last()));
                            }
                        }
                    }
                    i = i + 1;
                }
                proof {
                    if cl {
                        assert(arms@.subrange(0, arms@.len() as int) =~= arms@);
                        lemma_ops_arms_base(ctx, ts, arms@);
                    }
                }
                match result_ty {
                    Some(t) => {
                        let rt = self.table.deep_resolve(&t);
                        proof {
                            if cl {
                                assert(is_base(t@));
                                assert(rt@ == t@);
                            }
                            let k = choose|k: int| 0 <= k < i && shape_of(#[trigger] arms@[k].body, t@);
                            lemma_shape_resolved(arms@[k].body, t@, self.table);
                            crate::unify::lemma_resolve_idempotent(self.table, t@);
                        }
                        Some(rt)
                    }
                    None => None,
                }
            }
            _ => None,
        }
    }

    /// Infer the type of a pattern, binding its variables in the innermost
    /// scope. Returns the type that the pattern matches against.
    fn infer_pattern(&mut self, pattern: &Pattern, expected: &Type) -> (r: Option<Type>)
        ensures
            steps(*old(self), *final(self)),
            same_outer(old(self).env.scopes(), final(self).env.scopes()),
            pattern.kind matches PatternKind::Literal { value } ==> (r matches Some(t) && t@ == lit_type(value))
                && *final(self) == *old(self),
            pattern.kind is Wildcard ==> (r matches Some(t) && t@ == old(self).table.resolved(expected@))
                && *final(self) == *old(self),
            pattern.kind matches PatternKind::Ident { name } ==> {
                &&& r matches Some(t) && t@ == old(self).table.resolved(expected@)
                &&& final(self).table == old(self).table
                &&& final(self).diagnostics@ == old(self).diagnostics@
                &&& old(self).env.scopes().len() > 0 ==> {
                    let last = (old(self).env.scopes().len() - 1) as int;
                    let s = final(self).env.scopes()[last][name@];
                    &&& final(self).env.scopes() == old(self).env.scopes().update(last, old(self).env.scopes()[last].insert(name@, s))
                    &&& s.vars@.len() == 0
                    &&& s.ty@ == old(self).table.resolved(expected@)
                }
            },
        decreases pattern, 1nat,
    {
        match &pattern.kind {
            PatternKind::Literal { value } => Some(self.infer_literal(value)),
            PatternKind::Ident { name } => {
                let ty = self.table.deep_resolve(expected);
                self.env.bind(name.clone(), TypeScheme::mono(ty.duplicate()));
                Some(ty)
            }
            PatternKind::Wildcard => Some(self.table.deep_resolve(expected)),
            PatternKind::Variant { .. } => self.infer_variant_pattern(pattern, expected),
        }
    }

    /// Reports a variant with the wrong number of fields or arguments.
    fn report_arity(&mut self, what: &str, expected_n: &str, found: usize, unit: &str, span: Span)
        ensures
            steps(*old(self), *final(self)),
            final(self).env == old(self).env,
            adds_error(*old(self), *final(self), "E0204"@,
                what@ + " expects "@ + expected_n@ + " "@ + unit@ + ", found "@ + decimal(found as nat), span),
    {
        let f = usize_to_string(found);
        let msg = join7(what, " expects ", expected_n, " ", unit, ", found ", f.as_str());
        let label = join5("expected ", &owned(expected_n), " ", &owned(unit), "");
        self.report(Diagnostic::with_severity("E0204", Severity::Error, msg, span)
            .with_label(Label::with_message(span, label)));
    }

    /// Infer the type of a variant pattern (e.g. `Circle(r)`, `Some(x)`,
    /// `None`).
    fn infer_variant_pattern(&mut self, pattern: &Pattern, expected: &Type) -> (r: Option<Type>)
        ensures
            steps(*old(self), *final(self)),
            same_outer(old(self).env.scopes(), final(self).env.scopes()),
            pattern.kind matches PatternKind::Variant { name, fields } ==> {
                &&& name@ == "Some"@ || name@ == "None"@ ==> (r matches Some(t) && t@ is Option)
                &&& name@ == "Ok"@ || name@ == "Err"@ ==> (r matches Some(t) && t@ is Result)
                &&& (name@ == "Some"@ || name@ == "Ok"@ || name@ == "Err"@) && fields@.len() != 1
                    ==> appends_error(old(self).diagnostics@, final(self).diagnostics@, "E0204"@,
                        name@ + " expects "@ + "1"@ + " "@ + "field"@ + ", found "@ + decimal(fields@.len()), pattern.span)
                &&& name@ == "None"@ && fields@.len() != 0
                    ==> appends_error(old(self).diagnostics@, final(self).diagnostics@, "E0204"@,
                        name@ + " expects "@ + "0"@ + " "@ + "fields"@ + ", found "@ + decimal(fields@.len()), pattern.span)
                &&& name@ == "Some"@ || name@ == "None"@ ==> (old(self).table.shallow(expected@) matches TyV::Var(x)
                    ==> (unbound_fresh(old(self).table, x, 1) ==> (r matches Some(t)
                        && final(self).table.resolved(t@) == final(self).table.resolved(expected@))))
                &&& name@ == "Ok"@ || name@ == "Err"@ ==> (old(self).table.shallow(expected@) matches TyV::Var(x)
                    ==> (unbound_fresh(old(self).table, x, 2) ==> (r matches Some(t)
                        && final(self).table.resolved(t@) == final(self).table.resolved(expected@))))
                &&& (name@ == "Some"@ || name@ == "Ok"@ || name@ == "Err"@) && fields@.len() == 1
                    && old(self).env.scopes().len() > 0 ==> (fields@[0].kind matches PatternKind::Ident { name: x } ==> ({
                    let b = final(self).env.scopes().last()[x@];
                    &&& b.vars@.len() == 0
                    &&& r matches Some(t) && if name@ == "Some"@ {
                        t@ == TyV::Option(Box::new(b.ty@))
                    } else if name@ == "Ok"@ {
                        t@ matches TyV::Result(u, _) && *u == b.ty@
                    } else {
                        t@ matches TyV::Result(_, u) && *u == b.ty@
                    }
                }))
                &&& !builtin_variant(name@) && !old(self).env.variant_defs@.contains_key(name@) ==> r is None
                    && adds_error(*old(self), *final(self), "E0203"@, "undefined variant `"@ + name@ + "`"@, pattern.span)
                &&& !builtin_variant(name@) && old(self).env.variant_defs@.contains_key(name@)
                    && fields@.len() != old(self).env.variant_defs@[name@].field_types@.len() ==> r is None
                    && adds_error(*old(self), *final(self), "E0204"@,
                        "variant `"@ + name@ + "` expects "@ + decimal(old(self).env.variant_defs@[name@].field_types@.len())
                            + " field(s), found "@ + decimal(fields@.len()) + ""@, pattern.span)
                &&& !builtin_variant(name@) && old(self).env.variant_defs@.contains_key(name@)
                    && fields@.len() == old(self).env.variant_defs@[name@].field_types@.len() ==> (r matches Some(t)
                    && (t@ matches TyV::ADT(n, ts) && n == old(self).env.variant_defs@[name@].adt_name@
                    && ts.len() == old(self).env.variant_defs@[name@].type_params@.len()))
                &&& !builtin_variant(name@) && old(self).env.variant_defs@.contains_key(name@)
                    && fields@.len() == old(self).env.variant_defs@[name@].field_types@.len()
                    && old(self).env.scopes().len() > 0 && flat_fields(fields@)
                    ==> forall|k: int| 0 <= k < fields@.len() && (#[trigger] fields@[k]).kind is Ident ==> ({
                        let b = final(self).env.scopes().last()[fields@[k].kind->Ident_name@];
                        &&& b.vars@.len() == 0
                        &&& b.ty@ == final(self).table.resolved(tview_list(old(self).env.variant_defs@[name@].field_types@)[k])
                    })
                &&& !builtin_variant(name@) && old(self).env.variant_defs@.contains_key(name@)
                    && fields@.len() == old(self).env.variant_defs@[name@].field_types@.len()
                    ==> (old(self).table.shallow(expected@) matches TyV::Var(x)
                    ==> (unbound_fresh(old(self).table, x, old(self).env.variant_defs@[name@].type_params@.len() as nat)
                    ==> (r matches Some(t) && final(self).table.resolved(t@) == final(self).table.resolved(expected@))))
            },
            !(pattern.kind is Variant) ==> r is None && *final(self) == *old(self),
        decreases pattern, 0nat,
    {
        match &pattern.kind {
            PatternKind::Variant { name, fields } => {
                let span = pattern.span;
                proof {
                    reveal_strlit("Some");
                    reveal_strlit("None");
                    reveal_strlit("Ok");
                    reveal_strlit("Err");
                    assert("Ok"@.len() == 2 && "Err"@.len() == 3 && "None"@.len() == 4 && "Some"@.len() == 4);
                    assert("Some"@[0] != "None"@[0]);
                }
                if eq_lit(name, "Some") || eq_lit(name, "None") {
                    let inner_var = self.table.fresh_var();
                    let opt_ty = Type::Option(Box::new(inner_var.duplicate()));
                    let ghost t0 = self.table;
                    let _ = self.table.unify(&opt_ty, expected, span);
                    let ghost t1 = self.table;
                    proof {
                        if old(self).table.shallow(expected@) is Var {
                            let x = old(self).table.shallow(expected@)->Var_0;
                            if unbound_fresh(old(self).table, x, 1) {
                                assert(!old(self).table.map().contains_key(nth_fresh(old(self).table.next(), 0)));
                                assert(nth_fresh(old(self).table.next(), 0) == old(self).table.next());
                                assert(t0.shallow(expected@) == old(self).table.shallow(expected@));
                                assert(t0.resolved(inner_var@) == inner_var@);
                                assert(t0.resolved(opt_ty@) == TyV::Option(Box::new(inner_var@)));
                                assert(occ(inner_var@) == seq![old(self).table.next()]);
                                assert(occ(t0.resolved(opt_ty@)) =~= seq![old(self).table.next()]);
                                assert(t1.resolved(opt_ty@) == t1.resolved(expected@));
                            }
                        }
                    }
                    if eq_lit(name, "Some") {
                        if fields.len() != 1 {
                            self.report_arity("Some", "1", fields.len(), "field", span);
                            return Some(opt_ty);
                        }
                        let resolved_inner = self.table.deep_resolve(&inner_var);
                        proof {
                            assert(decreases_to!(pattern => fields@[0]));
                            crate::unify::lemma_resolve_idempotent(self.table, inner_var@);
                        }
                        let _ = self.infer_pattern(&fields[0], &resolved_inner);
                    } else if fields.len() != 0 {
                        self.report_arity("None", "0", fields.len(), "fields", span);
                    }
                    let rt = self.table.deep_resolve(&opt_ty);
                    proof {
                        crate::unify::lemma_resolve_idempotent(self.table, opt_ty@);
                        if t1.resolved(opt_ty@) == t1.resolved(expected@) {
                            crate::unify::lemma_unified_stay_unified(t1, self.table, opt_ty@, expected@);
                        }
                    }
                    return Some(rt);
                }
                if eq_lit(name, "Ok") || eq_lit(name, "Err") {
                    let ok_var = self.table.fresh_var();
                    let err_var = self.table.fresh_var();
                    let res_ty = Type::Result(Box::new(ok_var.duplicate()), Box::new(err_var.duplicate()));
                    let ghost t0 = self.table;
                    let _ = self.table.unify(&res_ty, expected, span);
                    let ghost t1 = self.table;
                    proof {
                        if old(self).table.shallow(expected@) is Var {
                            let x = old(self).table.shallow(expected@)->Var_0;
                            if unbound_fresh(old(self).table, x, 2) {
                                let n0 = old(self).table.next();
                                assert(!old(self).table.map().contains_key(nth_fresh(n0, 0)));
                                assert(!old(self).table.map().contains_key(nth_fresh(n0, 1)));
                                assert(nth_fresh(n0, 1) == vstd::wrapping::u32_specs::wrapping_add(nth_fresh(n0, 0), 1));
                                assert(t0.shallow(expected@) == old(self).table.shallow(expected@));
                                assert(nth_fresh(n0, 0) == n0);
                                assert(ok_var@ == TyV::Var(nth_fresh(n0, 0)));
                                assert(err_var@ == TyV::Var(nth_fresh(n0, 1)));
                                assert(t0.resolved(ok_var@) == ok_var@);
                                assert(t0.resolved(err_var@) == err_var@);
                                assert(t0.resolved(res_ty@) == TyV::Result(Box::new(ok_var@), Box::new(err_var@)));
                                assert(occ(ok_var@) == seq![nth_fresh(n0, 0)]);
                                assert(occ(err_var@) == seq![nth_fresh(n0, 1)]);
                                assert(occ(t0.resolved(res_ty@)) =~= seq![nth_fresh(n0, 0), nth_fresh(n0, 1)]);
                                assert(t1.resolved(res_ty@) == t1.resolved(expected@));
                            }
                        }
                    }
                    let is_ok = eq_lit(name, "Ok");
                    if fields.len() != 1 {
                        self.report_arity(if is_ok { "Ok" } else { "Err" }, "1", fields.len(), "field", span);
                        return Some(res_ty);
                    }
                    let inner = if is_ok { self.table.deep_resolve(&ok_var) } else { self.table.deep_resolve(&err_var) };
                    proof {
                        assert(decreases_to!(pattern => fields@[0]));
                        crate::unify::lemma_resolve_idempotent(self.table, ok_var@);
                        crate::unify::lemma_resolve_idempotent(self.table, err_var@);
                    }
                    let _ = self.infer_pattern(&fields[0], &inner);
                    let rt = self.table.deep_resolve(&res_ty);
                    proof {
                        crate::unify::lemma_resolve_idempotent(self.table, res_ty@);
                        if t1.resolved(res_ty@) == t1.resolved(expected@) {
                            crate::unify::lemma_unified_stay_unified(t1, self.table, res_ty@, expected@);
                        }
                    }
                    return Some(rt);
                }
                let variant_info = match self.env.variant_defs.get(name.as_str()) {
                    Some(info) => info.duplicate(),
                    None => {
                        let msg = join3("undefined variant `", name, "`");
                        self.report(Diagnostic::with_severity("E0203", Severity::Error, msg, span)
                            .with_label(Label::new(span, "not found")));
                        return None;
                    }
                };
                if fields.len() != variant_info.field_types.len() {
                    let e = usize_to_string(variant_info.field_types.len());
                    let msg = join7("variant `", name.as_str(), "` expects ", e.as_str(), " field(s), found ",
                        usize_to_string(fields.len()).as_str(), "");
                    self.report(Diagnostic::with_severity("E0204", Severity::Error, msg, span)
                        .with_label(Label::with_message(span, join3("expected ", &e, " field(s)"))));
                    return None;
                }
                let adt_type_args = self.fresh_vars(variant_info.type_params.len());
                let adt_ty = Type::ADT(variant_info.adt_name.clone(), adt_type_args);
                let ghost t0 = self.table;
                let _ = self.table.unify(&adt_ty, expected, span);
                let ghost t1 = self.table;
                proof {
                    crate::types::lemma_tview_list(adt_type_args@);
                    let np = variant_info.type_params@.len();
                    if old(self).table.shallow(expected@) is Var {
                        let x = old(self).table.shallow(expected@)->Var_0;
                        if unbound_fresh(old(self).table, x, np as nat) {
                            let n0 = old(self).table.next();
                            let vs = tview_list(adt_type_args@);
                            assert forall|k: int| 0 <= k < vs.len() implies (#[trigger] vs[k]) is Var
                                && !t0.map().contains_key(vs[k]->Var_0) && vs[k]->Var_0 != x by {
                                assert(vs[k] == TyV::Var(nth_fresh(n0, k as nat)));
                                assert(!old(self).table.map().contains_key(nth_fresh(n0, k as nat)));
                            }
                            crate::unify::lemma_dres_unbound_vars(t0.map(), t0.ranks(), vs);
                            assert(t0.resolved(adt_ty@) == adt_ty@);
                            crate::unify::lemma_occ_list_contains(vs, x);
                            assert forall|k: int| 0 <= k < vs.len() implies !(#[trigger] occ(vs[k])).contains(x) by {
                                assert(occ(vs[k]) == seq![vs[k]->Var_0]);
                            }
                            assert(!occ(t0.resolved(adt_ty@)).contains(x));
                            assert(t0.shallow(expected@) == old(self).table.shallow(expected@));
                            assert(t1.resolved(adt_ty@) == t1.resolved(expected@));
                        }
                    }
                }
                let mut i: usize = 0;
                proof {
                    assert forall|k: int| 0 <= k < fields@.len() implies decreases_to!(pattern => #[trigger] fields@[k]) by {}
                }
                while i < fields.len()
                    invariant
                        i <= fields@.len(),
                        fields@.len() == variant_info.field_types@.len(),
                        forall|k: int| 0 <= k < fields@.len() ==> decreases_to!(pattern => #[trigger] fields@[k]),
                        steps(*old(self), *self),
                        extends(t1.map(), self.table.map()),
                        same_outer(old(self).env.scopes(), self.env.scopes()),
                        variant_info.same(old(self).env.variant_defs@[name@]),
                        old(self).env.scopes().len() > 0 && flat_fields(fields@) ==> self.table == t1 && ({
                            forall|k: int| 0 <= k < i && (#[trigger] fields@[k]).kind is Ident ==> ({
                                let b = self.env.scopes().last()[fields@[k].kind->Ident_name@];
                                &&& b.vars@.len() == 0
                                &&& b.ty@ == t1.resolved(tview_list(variant_info.field_types@)[k])
                            })
                        }),
                    decreases fields@.len() - i,
                {
                    proof { assert(decreases_to!(pattern => fields@[i as int])); }
                    let substituted = substitute_type_params(&variant_info.field_types[i]);
                    let resolved = self.table.deep_resolve(&substituted);
                    let ghost sc_before = self.env.scopes();
                    let _ = self.infer_pattern(&fields[i], &resolved);
                    proof {
                        crate::types::lemma_tview_list(variant_info.field_types@);
                        if old(self).env.scopes().len() > 0 && flat_fields(fields@) {
                            crate::unify::lemma_resolve_idempotent(t1, substituted@);
                            assert forall|k: int| 0 <= k < i + 1 && (#[trigger] fields@[k]).kind is Ident implies ({
                                let b = self.env.scopes().last()[fields@[k].kind->Ident_name@];
                                &&& b.vars@.len() == 0
                                &&& b.ty@ == t1.resolved(tview_list(variant_info.field_types@)[k])
                            }) by {
                                if k < i && fields@[i as int].kind is Ident {
                                    assert(fields@[k].kind->Ident_name@ != fields@[i as int].kind->Ident_name@);
                                }
                            }
                        }
                    }
                    i = i + 1;
                }
                let rt = self.table.deep_resolve(&adt_ty);
                proof {
                    crate::types::lemma_tview_list(adt_type_args@);
                    crate::unify::lemma_dres_list(self.table.map(), self.table.ranks(), tview_list(adt_type_args@));
                    crate::unify::lemma_resolve_idempotent(self.table, adt_ty@);
                    if t1.resolved(adt_ty@) == t1.resolved(expected@) {
                        crate::unify::lemma_unified_stay_unified(t1, self.table, adt_ty@, expected@);
                    }
                    crate::types::lemma_tview_list(variant_info.field_types@);
                }
                Some(rt)
            }
            _ => None,
        }
    }

    /// Infer the type of a variant construction expression.
    fn infer_variant_construct(&mut self, expr: &Expr) -> (r: Option<Type>)
        ensures
            r matches Some(t) ==> shape_of(*expr, t@),
            expr.kind is VariantConstruct && always_typed(*expr) ==> r is Some,
            expr.kind matches ExprKind::VariantConstruct { name, args } ==> {
                &&& (name@ == "Some"@ || name@ == "Ok"@ || name@ == "Err"@) && args@.len() != 1 ==> r is None
                    && adds_error(*old(self), *final(self), "E0204"@,
                        name@ + " expects "@ + "1"@ + " "@ + "argument"@ + ", found "@ + decimal(args@.len()), expr.span)
                &&& name@ == "None"@ && args@.len() != 0 ==> r is None
                    && adds_error(*old(self), *final(self), "E0204"@,
                        name@ + " expects "@ + "0"@ + " "@ + "arguments"@ + ", found "@ + decimal(args@.len()), expr.span)
                &&& (name@ == "Some"@ || name@ == "Ok"@ || name@ == "Err"@) && args@.len() == 1
                    && closed_in(known_names(old(self).env.scopes()), args@[0]) ==> ({
                    let res = ops_in(known_names(old(self).env.scopes()), args@[0]);
                    &&& grows_by(old(self).diagnostics@, final(self).diagnostics@, res.1)
                    &&& match res.0 {
                        None => r is None,
                        Some(a) => r matches Some(t) && (if name@ == "Some"@ {
                            t@ == TyV::Option(Box::new(a))
                        } else if name@ == "Ok"@ {
                            t@ matches TyV::Result(x, y) && *x == a && *y is Var
                        } else {
                            t@ matches TyV::Result(x, y) && *y == a && *x is Var
                        }),
                    }
                })
                &&& name@ == "None"@ && args@.len() == 0 ==> (r matches Some(t)
                    && t@ == TyV::Option(Box::new(TyV::Var(old(self).table.next())))
                    && final(self).diagnostics@ == old(self).diagnostics@)
                &&& !builtin_variant(name@) && !old(self).env.variant_defs@.contains_key(name@) ==> r is None
                    && adds_error(*old(self), *final(self), "E0203"@, "undefined variant `"@ + name@ + "`"@, expr.span)
                &&& !builtin_variant(name@) && old(self).env.variant_defs@.contains_key(name@)
                    && args@.len() != old(self).env.variant_defs@[name@].field_types@.len() ==> r is None
                    && adds_error(*old(self), *final(self), "E0204"@,
                        "variant `"@ + name@ + "` expects "@ + decimal(old(self).env.variant_defs@[name@].field_types@.len())
                            + " argument(s), found "@ + decimal(args@.len()) + ""@, expr.span)
                &&& !builtin_variant(name@) && old(self).env.variant_defs@.contains_key(name@)
                    && args@.len() == old(self).env.variant_defs@[name@].field_types@.len() ==> (r matches Some(t)
                    && (t@ matches TyV::ADT(n, ts) && n == old(self).env.variant_defs@[name@].adt_name@
                    && ts == Seq::new(old(self).env.variant_defs@[name@].type_params@.len(),
                        |k: int| final(self).table.resolved(TyV::Var(nth_fresh(old(self).table.next(), k as nat))))))
                &&& !builtin_variant(name@) && old(self).env.variant_defs@.contains_key(name@)
                    && args@.len() == old(self).env.variant_defs@[name@].field_types@.len()
                    && closed_args_base_fields(known_names(old(self).env.scopes()), args@,
                        tview_list(old(self).env.variant_defs@[name@].field_types@)) ==> grows_by(old(self).diagnostics@,
                        final(self).diagnostics@, arg_reports(known_names(old(self).env.scopes()), args@,
                            tview_list(old(self).env.variant_defs@[name@].field_types@), args@.len()))
            },
            steps(*old(self), *final(self)),
            final(self).env.scopes() == old(self).env.scopes(),
        decreases expr, 1nat,
    {
        match &expr.kind {
            ExprKind::VariantConstruct { name, args } => {
                let span = expr.span;
                proof {
                    reveal_strlit("Some");
                    reveal_strlit("None");
                    reveal_strlit("Ok");
                    reveal_strlit("Err");
                    assert("Ok"@.len() == 2 && "Err"@.len() == 3 && "None"@.len() == 4 && "Some"@.len() == 4);
                    assert("Some"@[0] != "None"@[0]);
                }
                if eq_lit(name, "Some") || eq_lit(name, "Ok") || eq_lit(name, "Err") {
                    if args.len() != 1 {
                        let what = if eq_lit(name, "Some") { "Some" } else if eq_lit(name, "Ok") { "Ok" } else { "Err" };
                        self.report_arity(what, "1", args.len(), "argument", span);
                        return None;
                    }
                    proof { assert(decreases_to!(expr => args@[0])); }
                    let inner = match self.infer_expr(&args[0]) { Some(t) => t, None => return None };
                    if eq_lit(name, "Some") {
                        return Some(Type::Option(Box::new(inner)));
                    } else if eq_lit(name, "Ok") {
                        return Some(Type::Result(Box::new(inner), Box::new(self.table.fresh_var())));
                    } else {
                        return Some(Type::Result(Box::new(self.table.fresh_var()), Box::new(inner)));
                    }
                }
                if eq_lit(name, "None") {
                    if args.len() != 0 {
                        self.report_arity("None", "0", args.len(), "arguments", span);
                        return None;
                    }
                    return Some(Type::Option(Box::new(self.table.fresh_var())));
                }
                let variant_info = match self.env.variant_defs.get(name.as_str()) {
                    Some(info) => info.duplicate(),
                    None => {
                        let msg = join3("undefined variant `", name, "`");
                        self.report(Diagnostic::with_severity("E0203", Severity::Error, msg, span)
                            .with_label(Label::new(span, "not found")));
                        return None;
                    }
                };
                if args.len() != variant_info.field_types.len() {
                    let e = usize_to_string(variant_info.field_types.len());
                    let msg = join7("variant `", name.as_str(), "` expects ", e.as_str(), " argument(s), found ",
                        usize_to_string(args.len()).as_str(), "");
                    self.report(Diagnostic::with_severity("E0204", Severity::Error, msg, span)
                        .with_label(Label::with_message(span, join3("expected ", &e, " argument(s)"))));
                    return None;
                }
                let fresh_params = self.fresh_vars(variant_info.type_params.len());
                let ghost fts = tview_list(variant_info.field_types@);
                let ghost ctx = known_names(self.env.scopes());
                let ghost simple = closed_args_base_fields(ctx, args@, fts);
                let ghost d0 = self.diagnostics@;
                let mut i: usize = 0;
                proof {
                    assert forall|k: int| 0 <= k < args@.len() implies decreases_to!(expr => #[trigger] args@[k]) by {}
                    crate::types::lemma_tview_list(variant_info.field_types@);
                    assert(d0 == old(self).diagnostics@);
                    assert(self.diagnostics@.subrange(0, d0.len() as int) =~= d0);
                    assert(self.diagnostics@.subrange(d0.len() as int, self.diagnostics@.len() as int) =~= Seq::<Diagnostic>::empty());
                    lemma_grows_none(d0);
                }
                while i < args.len()
                    invariant
                        i <= args@.len(),
                        args@.len() == variant_info.field_types@.len(),
                        forall|k: int| 0 <= k < args@.len() ==> decreases_to!(expr => #[trigger] args@[k]),
                        steps(*old(self), *self),
                        self.env.scopes() == old(self).env.scopes(),
                        fts == tview_list(variant_info.field_types@),
                        fts.len() == variant_info.field_types@.len(),
                        forall|k: int| 0 <= k < fts.len() ==> #[trigger] fts[k] == variant_info.field_types@[k]@,
                        ctx == known_names(self.env.scopes()),
                        simple == closed_args_base_fields(ctx, args@, fts),
                        simple ==> grows_by(d0, self.diagnostics@, arg_reports(ctx, args@, fts, i as nat)),
                    decreases args@.len() - i,
                {
                    proof { assert(decreases_to!(expr => args@[i as int])); }
                    let arg = &args[i];
                    let field_ty = &variant_info.field_types[i];
                    let ghost before = self.diagnostics@;
                    let ghost acc = arg_reports(ctx, args@, fts, i as nat);
                    let ghost res = ops_in(ctx, args@[i as int]);
                    let ghost mid = before;
                    if let Some(at) = self.infer_expr(arg) {
                        proof {
                            mid = self.diagnostics@;
                            if simple {
                                lemma_known_base(self.env.scopes());
                                lemma_ops_in_base(ctx, args@[i as int]);
                            }
                        }
                        if self.table.unify(&at, field_ty, arg.span).is_err() {
                            let ex = self.table.deep_resolve(field_ty).display();
                            let fd = self.table.deep_resolve(&at).display();
                            let msg = join5("type mismatch in variant constructor: expected `", &ex, "`, found `", &fd, "`");
                            self.report(Diagnostic::with_severity("E0200", Severity::Error, msg, arg.span)
                                .with_label(Label::with_message(arg.span, join3("expected `", &ex, "`"))));
                        }
                    }
                    proof {
                        if simple {
                            let d1 = self.diagnostics@;
                            let x = DiagV { code: "E0200"@, message: "type mismatch in variant constructor: expected `"@
                                + display(fts[i as int]) + "`, found `"@ + display(res.0->0) + "`"@, span: args@[i as int].span };
                            assert(arg_reports(ctx, args@, fts, (i + 1) as nat) == acc + res.1 + match res.0 {
                                Some(a) => if a == fts[i as int] { Seq::<DiagV>::empty() } else { seq![x] },
                                None => Seq::<DiagV>::empty(),
                            });
                            if res.0 is Some {
                                lemma_grows_trans(d0, before, mid, acc, res.1);
                                if d1 != mid {
                                    lemma_grows_append(d0, mid, d1, acc + res.1);
                                    assert((acc + res.1).push(x) =~= acc + res.1 + seq![x]);
                                } else {
                                    assert(acc + res.1 + Seq::<DiagV>::empty() =~= acc + res.1);
                                }
                            } else {
                                lemma_grows_trans(d0, before, d1, acc, res.1);
                                assert(acc + res.1 + Seq::<DiagV>::empty() =~= acc + res.1);
                            }
                        }
                    }
                    i = i + 1;
                }
                let mut adt_args: Vec<Type> = Vec::new();
                if variant_info.type_params.len() != 0 {
                    let mut k: usize = 0;
                    while k < fresh_params.len()
                        invariant
                            k <= fresh_params@.len(),
                            adt_args@.len() == k,
                            fresh_params@.len() == variant_info.type_params@.len(),
                            forall|j: int| 0 <= j < k ==> (#[trigger] adt_args@[j])@
                                == self.table.resolved(TyV::Var(nth_fresh(old(self).table.next(), j as nat))),
                            forall|j: int| 0 <= j < fresh_params@.len() ==> (#[trigger] fresh_params@[j])@
                                == TyV::Var(nth_fresh(old(self).table.next(), j as nat)),
                        decreases fresh_params@.len() - k,
                    {
                        adt_args.push(self.table.deep_resolve(&fresh_params[k]));
                        k = k + 1;
                    }
                }
                proof {
                    crate::types::lemma_tview_list(adt_args@);
                    assert(tview_list(adt_args@) =~= Seq::new(variant_info.type_params@.len(),
                        |k: int| self.table.resolved(TyV::Var(nth_fresh(old(self).table.next(), k as nat)))));
                }
                Some(Type::ADT(variant_info.adt_name.clone(), adt_args))
            }
            _ => None,
        }
    }
}

/// The field type of a variant as used in a pattern. The type parameters of
/// the ADT were turned into variables when the variant was registered, and
/// unification relates them; the field type is used as it is.
fn substitute_type_params(ty: &Type) -> (r: Type)
    ensures
        r@ == ty@,
{
    ty.duplicate()
}

} // verus!
