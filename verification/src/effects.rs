//! Effect checking: a `pure` function must not call an `io` function.
use vstd::prelude::*;
use crate::ast::{Program, Decl, DeclKind, Effect, Expr, ExprKind, MatchArm, occurs, occurs_in_list, occurs_in_arms, lemma_contains_concat,
    lemma_concat_contains_part};
use crate::diagnostics::{Diagnostic, Label, Span, Severity};
use crate::env::{TypeEnv, FnEffectInfo};
use crate::text::{owned, cat};

verus! {

/// A call of an io function found in the body of a pure function: the
/// function's name, the callee's name, the span of the call and the span of
/// the callee.
pub struct IoCall {
    pub fn_name: Seq<char>,
    pub callee: Seq<char>,
    pub call_span: Span,
    pub callee_span: Span,
}

/// Whether `name` is recorded as an io function.
pub open spec fn is_io(effects: Map<Seq<char>, FnEffectInfo>, name: Seq<char>) -> bool {
    effects.contains_key(name) && effects[name].effect == Effect::Io
}

/// The io call made by a call of `callee` at `call_span`, if any.
pub open spec fn call_here(callee: Expr, call_span: Span, f: Seq<char>, effects: Map<Seq<char>, FnEffectInfo>) -> Seq<IoCall> {
    match callee.kind {
        ExprKind::Ident { name } => if is_io(effects, name@) {
            seq![IoCall { fn_name: f, callee: name@, call_span, callee_span: callee.span }]
        } else {
            seq![]
        },
        _ => seq![],
    }
}

/// The io calls of a declaration: those of its body when it is a pure
/// function.
pub open spec fn decl_io_calls(d: Decl, effects: Map<Seq<char>, FnEffectInfo>) -> Seq<IoCall> {
    match d.kind {
        DeclKind::FnDef { name, effect, body, .. } => if effect == Effect::Pure { io_calls(body, name@, effects) } else { seq![] },
        _ => seq![],
    }
}

/// The io calls of `e`, in the order the checker visits them: a call before
/// its callee and its arguments, sub-expressions left to right.
pub open spec fn io_calls(e: Expr, f: Seq<char>, effects: Map<Seq<char>, FnEffectInfo>) -> Seq<IoCall>
    decreases e, 0nat,
{
    match e.kind {
        ExprKind::FnCall { callee, args } =>
            call_here(*callee, e.span, f, effects) + io_calls(*callee, f, effects) + io_calls_list(args@, f, effects),
        ExprKind::BinaryOp { lhs, rhs, .. } => io_calls(*lhs, f, effects) + io_calls(*rhs, f, effects),
        ExprKind::UnaryOp { operand, .. } => io_calls(*operand, f, effects),
        ExprKind::LetExpr { value, body, .. } => io_calls(*value, f, effects) + io_calls(*body, f, effects),
        ExprKind::IfElse { condition, then_branch, else_branch } =>
            io_calls(*condition, f, effects) + io_calls(*then_branch, f, effects) + io_calls(*else_branch, f, effects),
        ExprKind::Match { scrutinee, arms } => io_calls(*scrutinee, f, effects) + io_calls_arms(arms@, f, effects),
        ExprKind::Block { exprs } => io_calls_list(exprs@, f, effects),
        ExprKind::VariantConstruct { args, .. } => io_calls_list(args@, f, effects),
        ExprKind::ListLiteral { elements } => io_calls_list(elements@, f, effects),
        _ => seq![],
    }
}

/// The io calls of a list of expressions, in order.
pub open spec fn io_calls_list(es: Seq<Expr>, f: Seq<char>, effects: Map<Seq<char>, FnEffectInfo>) -> Seq<IoCall>
    decreases es, 1nat,
{
    if es.len() == 0 {
        seq![]
    } else {
        io_calls(es[0], f, effects) + io_calls_list(es.drop_first(), f, effects)
    }
}

/// The io calls of the bodies of match arms, in order.
pub open spec fn io_calls_arms(arms: Seq<MatchArm>, f: Seq<char>, effects: Map<Seq<char>, FnEffectInfo>) -> Seq<IoCall>
    decreases arms, 1nat,
{
    if arms.len() == 0 {
        seq![]
    } else {
        io_calls(arms[0].body, f, effects) + io_calls_arms(arms.drop_first(), f, effects)
    }
}

/// The io calls of the pure functions among `ds`, in order.
pub open spec fn program_io_calls(ds: Seq<Decl>, effects: Map<Seq<char>, FnEffectInfo>) -> Seq<IoCall>
    decreases ds.len(),
{
    if ds.len() == 0 {
        seq![]
    } else {
        decl_io_calls(ds[0], effects) + program_io_calls(ds.drop_first(), effects)
    }
}

/// Whether `d` is the diagnostic for the io call `c`.
pub open spec fn reports_io_call(d: Diagnostic, c: IoCall) -> bool {
    &&& d.code.0@ == "E0300"@
    &&& d.severity == Severity::Error
    &&& d.span == c.call_span
    &&& d.message@ == "pure function `"@ + c.fn_name + "` cannot call io function `"@ + c.callee + "`"@
    &&& d.labels@.len() == 1
    &&& d.labels@[0].span == c.callee_span
    &&& d.labels@[0].message@ == "`"@ + c.callee + "` is an io function"@
    &&& d.notes@.len() == 0
    &&& d.help matches Some(h) && h@ == "either mark `"@ + c.fn_name + "` as `io fn` or remove the call to `"@ + c.callee + "`"@
    &&& d.quickfixes@.len() == 0
}

/// `new_ds` is `old_ds` followed by one diagnostic per call of `cs`.
pub open spec fn reports_after(old_ds: Seq<Diagnostic>, new_ds: Seq<Diagnostic>, cs: Seq<IoCall>) -> bool {
    &&& new_ds.len() == old_ds.len() + cs.len()
    &&& new_ds.subrange(0, old_ds.len() as int) == old_ds
    &&& forall|k: int| 0 <= k < cs.len() ==> reports_io_call(#[trigger] new_ds[old_ds.len() + k], cs[k])
}

/// Nothing reported is a report of no calls.
pub proof fn lemma_reports_none(ds: Seq<Diagnostic>)
    ensures
        reports_after(ds, ds, seq![]),
{
    assert(ds.subrange(0, ds.len() as int) =~= ds);
}

/// Reports compose.
pub proof fn lemma_reports_trans(a: Seq<Diagnostic>, b: Seq<Diagnostic>, c: Seq<Diagnostic>, x: Seq<IoCall>, y: Seq<IoCall>)
    requires
        reports_after(a, b, x),
        reports_after(b, c, y),
    ensures
        reports_after(a, c, x + y),
{
    assert(c.subrange(0, a.len() as int) =~= a) by {
        assert forall|k: int| 0 <= k < a.len() implies c[k] == a[k] by {
            assert(c[k] == c.subrange(0, b.len() as int)[k]);
            assert(b[k] == b.subrange(0, a.len() as int)[k]);
        }
    }
    assert forall|k: int| 0 <= k < (x + y).len() implies reports_io_call(#[trigger] c[a.len() + k], (x + y)[k]) by {
        if k < x.len() {
            assert(c[a.len() + k] == c.subrange(0, b.len() as int)[a.len() + k]);
            assert(reports_io_call(b[a.len() + k], x[k]));
        } else {
            assert(reports_io_call(c[b.len() + (k - x.len())], y[k - x.len()]));
        }
    }
}

/// Check effect annotations for all functions in a program: one E0300
/// error for each call of an io function from a pure function.
pub fn check_effects(program: &Program, env: &TypeEnv) -> (r: Vec<Diagnostic>)
    ensures
        reports_after(seq![], r@, program_io_calls(program.decls@, env.fn_effects@)),
{
    let mut diagnostics: Vec<Diagnostic> = Vec::new();
    let ghost eff = env.fn_effects@;
    let ghost ds = program.decls@;
    let ghost mut done: Seq<IoCall> = seq![];
    proof {
        lemma_reports_none(diagnostics@);
        assert(ds.subrange(0, ds.len() as int) =~= ds);
        assert(done + program_io_calls(ds, eff) =~= program_io_calls(ds, eff));
    }
    let mut i: usize = 0;
    while i < program.decls.len()
        invariant
            i <= ds.len(),
            ds == program.decls@,
            eff == env.fn_effects@,
            reports_after(seq![], diagnostics@, done),
            program_io_calls(ds, eff) == done + program_io_calls(ds.subrange(i as int, ds.len() as int), eff),
        decreases ds.len() - i,
    {
        let decl = &program.decls[i];
        let ghost rest = ds.subrange(i as int, ds.len() as int);
        let ghost before = diagnostics@;
        proof {
            assert(rest[0] == *decl);
            assert(rest.drop_first() =~= ds.subrange(i + 1, ds.len() as int));
        }
        let ghost here = decl_io_calls(*decl, eff);
        match &decl.kind {
            DeclKind::FnDef { name, effect, body, .. } => {
                if *effect == Effect::Pure {
                    check_expr_effects(body, name, env, &mut diagnostics);
                } else {
                    proof { lemma_reports_none(diagnostics@); }
                }
            }
            _ => {
                proof { lemma_reports_none(diagnostics@); }
            }
        }
        proof {
            lemma_reports_trans(seq![], before, diagnostics@, done, here);
            assert(done + here + program_io_calls(ds.subrange(i + 1, ds.len() as int), eff)
                =~= done + (here + program_io_calls(ds.subrange(i + 1, ds.len() as int), eff)));
            done = done + here;
        }
        i = i + 1;
    }
    proof {
        assert(ds.subrange(i as int, ds.len() as int) =~= Seq::<Decl>::empty());
        assert(done + Seq::<IoCall>::empty() =~= done);
    }
    diagnostics
}

/// Check an expression of the pure function `fn_name` for io calls.
fn check_expr_effects(expr: &Expr, fn_name: &String, env: &TypeEnv, diagnostics: &mut Vec<Diagnostic>)
    ensures
        reports_after(old(diagnostics)@, final(diagnostics)@, io_calls(*expr, fn_name@, env.fn_effects@)),
    decreases expr, 1nat,
{
    let ghost eff = env.fn_effects@;
    let ghost f = fn_name@;
    match &expr.kind {
        ExprKind::FnCall { callee, args } => {
            let ghost start = diagnostics@;
            let ghost here = call_here(**callee, expr.span, f, eff);
            proof { lemma_reports_none(diagnostics@); }
            if let ExprKind::Ident { name } = &callee.kind {
                if let Some(info) = env.fn_effects.get(name.as_str()) {
                    if info.effect == Effect::Io {
                        let msg = cat(cat(cat(cat(owned("pure function `"), fn_name.as_str()),
                            "` cannot call io function `"), name.as_str()), "`");
                        let label = cat(cat(owned("`"), name.as_str()), "` is an io function");
                        let help = cat(cat(cat(cat(owned("either mark `"), fn_name.as_str()),
                            "` as `io fn` or remove the call to `"), name.as_str()), "`");
                        let d = Diagnostic::with_severity("E0300", Severity::Error, msg, expr.span)
                            .with_label(Label::with_message(callee.span, label));
                        let d = Diagnostic { help: Some(help), ..d };
                        let ghost b0 = diagnostics@;
                        diagnostics.push(d);
                        proof {
                            assert(diagnostics@.subrange(0, b0.len() as int) =~= b0);
                            assert(diagnostics@[b0.len() as int] == d);
                        }
                    }
                }
            }
            let ghost mid = diagnostics@;
            check_expr_effects(callee, fn_name, env, diagnostics);
            proof { lemma_reports_trans(start, mid, diagnostics@, here, io_calls(**callee, f, eff)); }
            let ghost acc0 = here + io_calls(**callee, f, eff);
            check_list_effects(expr, args, fn_name, env, diagnostics, Ghost(start), Ghost(acc0));
        }
        ExprKind::BinaryOp { lhs, rhs, .. } => {
            let ghost start = diagnostics@;
            check_expr_effects(lhs, fn_name, env, diagnostics);
            let ghost mid = diagnostics@;
            check_expr_effects(rhs, fn_name, env, diagnostics);
            proof { lemma_reports_trans(start, mid, diagnostics@, io_calls(**lhs, f, eff), io_calls(**rhs, f, eff)); }
        }
        ExprKind::UnaryOp { operand, .. } => {
            check_expr_effects(operand, fn_name, env, diagnostics);
        }
        ExprKind::LetExpr { value, body, .. } => {
            let ghost start = diagnostics@;
            check_expr_effects(value, fn_name, env, diagnostics);
            let ghost mid = diagnostics@;
            check_expr_effects(body, fn_name, env, diagnostics);
            proof { lemma_reports_trans(start, mid, diagnostics@, io_calls(**value, f, eff), io_calls(**body, f, eff)); }
        }
        ExprKind::IfElse { condition, then_branch, else_branch } => {
            let ghost start = diagnostics@;
            check_expr_effects(condition, fn_name, env, diagnostics);
            let ghost m1 = diagnostics@;
            check_expr_effects(then_branch, fn_name, env, diagnostics);
            let ghost m2 = diagnostics@;
            check_expr_effects(else_branch, fn_name, env, diagnostics);
            proof {
                lemma_reports_trans(start, m1, m2, io_calls(**condition, f, eff), io_calls(**then_branch, f, eff));
                lemma_reports_trans(start, m2, diagnostics@,
                    io_calls(**condition, f, eff) + io_calls(**then_branch, f, eff), io_calls(**else_branch, f, eff));
            }
        }
        ExprKind::Match { scrutinee, arms } => {
            let ghost start = diagnostics@;
            check_expr_effects(scrutinee, fn_name, env, diagnostics);
            let ghost mid = diagnostics@;
            let mut i: usize = 0;
            let ghost mut done: Seq<IoCall> = seq![];
            proof {
                lemma_reports_none(diagnostics@);
                assert(arms@.subrange(0, arms@.len() as int) =~= arms@);
                assert forall|k: int| 0 <= k < arms@.len() implies decreases_to!(expr => #[trigger] arms@[k].body) by {
                    assert(decreases_to!(expr => arms@[k]));
                }
            }
            while i < arms.len()
                invariant
                    i <= arms@.len(),
                    forall|k: int| 0 <= k < arms@.len() ==> decreases_to!(expr => #[trigger] arms@[k].body),
                    eff == env.fn_effects@,
                    f == fn_name@,
                    reports_after(mid, diagnostics@, done),
                    io_calls_arms(arms@, f, eff) == done + io_calls_arms(arms@.subrange(i as int, arms@.len() as int), f, eff),
                decreases arms@.len() - i,
            {
                let ghost rest = arms@.subrange(i as int, arms@.len() as int);
                let ghost before = diagnostics@;
                proof {
                    assert(rest[0] == arms@[i as int]);
                    assert(rest.drop_first() =~= arms@.subrange(i + 1, arms@.len() as int));
                }
                check_expr_effects(&arms[i].body, fn_name, env, diagnostics);
                proof {
                    lemma_reports_trans(mid, before, diagnostics@, done, io_calls(arms@[i as int].body, f, eff));
                    let rest2 = io_calls_arms(arms@.subrange(i + 1, arms@.len() as int), f, eff);
                    assert(done + io_calls(arms@[i as int].body, f, eff) + rest2 =~= done + (io_calls(arms@[i as int].body, f, eff) + rest2));
                    done = done + io_calls(arms@[i as int].body, f, eff);
                }
                i = i + 1;
            }
            proof {
                assert(arms@.subrange(i as int, arms@.len() as int) =~= Seq::<MatchArm>::empty());
                assert(done + Seq::<IoCall>::empty() =~= done);
                lemma_reports_trans(start, mid, diagnostics@, io_calls(**scrutinee, f, eff), done);
            }
        }
        ExprKind::Block { exprs } => {
            proof { lemma_reports_none(diagnostics@); }
            let ghost start = diagnostics@;
            check_list_effects(expr, exprs, fn_name, env, diagnostics, Ghost(start), Ghost(Seq::<IoCall>::empty()));
            proof { assert(Seq::<IoCall>::empty() + io_calls_list(exprs@, f, eff) =~= io_calls_list(exprs@, f, eff)); }
        }
        ExprKind::VariantConstruct { args, .. } => {
            proof { lemma_reports_none(diagnostics@); }
            let ghost start = diagnostics@;
            check_list_effects(expr, args, fn_name, env, diagnostics, Ghost(start), Ghost(Seq::<IoCall>::empty()));
            proof { assert(Seq::<IoCall>::empty() + io_calls_list(args@, f, eff) =~= io_calls_list(args@, f, eff)); }
        }
        ExprKind::ListLiteral { elements } => {
            proof { lemma_reports_none(diagnostics@); }
            let ghost start = diagnostics@;
            check_list_effects(expr, elements, fn_name, env, diagnostics, Ghost(start), Ghost(Seq::<IoCall>::empty()));
            proof { assert(Seq::<IoCall>::empty() + io_calls_list(elements@, f, eff) =~= io_calls_list(elements@, f, eff)); }
        }
        _ => {
            proof { lemma_reports_none(diagnostics@); }
        }
    }
}

/// Checks the sub-expressions `es` of `parent` in order, after the calls
/// `acc` were reported from `start` on.
fn check_list_effects(parent: &Expr, es: &Vec<Expr>, fn_name: &String, env: &TypeEnv, diagnostics: &mut Vec<Diagnostic>,
    Ghost(start): Ghost<Seq<Diagnostic>>, Ghost(acc): Ghost<Seq<IoCall>>)
    requires
        reports_after(start, old(diagnostics)@, acc),
        forall|k: int| 0 <= k < es@.len() ==> decreases_to!(parent => #[trigger] es@[k]),
    ensures
        reports_after(start, final(diagnostics)@, acc + io_calls_list(es@, fn_name@, env.fn_effects@)),
    decreases parent, 0nat,
{
    let ghost eff = env.fn_effects@;
    let ghost f = fn_name@;
    let ghost mut done = acc;
    let mut i: usize = 0;
    proof { assert(es@.subrange(0, es@.len() as int) =~= es@); }
    while i < es.len()
        invariant
            i <= es@.len(),
            eff == env.fn_effects@,
            f == fn_name@,
            forall|k: int| 0 <= k < es@.len() ==> decreases_to!(parent => #[trigger] es@[k]),
            reports_after(start, diagnostics@, done),
            acc + io_calls_list(es@, f, eff) == done + io_calls_list(es@.subrange(i as int, es@.len() as int), f, eff),
        decreases es@.len() - i,
    {
        let ghost rest = es@.subrange(i as int, es@.len() as int);
        let ghost before = diagnostics@;
        proof {
            assert(rest[0] == es@[i as int]);
            assert(rest.drop_first() =~= es@.subrange(i + 1, es@.len() as int));
            assert(decreases_to!(parent => es@[i as int]));
        }
        check_expr_effects(&es[i], fn_name, env, diagnostics);
        proof {
            lemma_reports_trans(start, before, diagnostics@, done, io_calls(es@[i as int], f, eff));
            let rest2 = io_calls_list(es@.subrange(i + 1, es@.len() as int), f, eff);
            assert(done + io_calls(es@[i as int], f, eff) + rest2 =~= done + (io_calls(es@[i as int], f, eff) + rest2));
            done = done + io_calls(es@[i as int], f, eff);
        }
        i = i + 1;
    }
    proof {
        assert(es@.subrange(i as int, es@.len() as int) =~= Seq::<Expr>::empty());
        assert(done + Seq::<IoCall>::empty() =~= done);
    }
}

/// A call of a function that `effects` records as io, named by an
/// identifier.
pub open spec fn io_call_site(s: Expr, effects: Map<Seq<char>, FnEffectInfo>) -> bool {
    &&& s.kind is FnCall
    &&& s.kind->FnCall_callee.kind is Ident
    &&& is_io(effects, s.kind->FnCall_callee.kind->Ident_name@)
}

/// The io call that the call `s` makes in the function named `f`: its
/// callee's name, the call's span and the callee's span.
pub open spec fn site_call(s: Expr, f: Seq<char>) -> IoCall {
    IoCall {
        fn_name: f,
        callee: s.kind->FnCall_callee.kind->Ident_name@,
        call_span: s.span,
        callee_span: s.kind->FnCall_callee.span,
    }
}

/// Every call of an io function anywhere in `e` (in a call's callee or
/// arguments, an operand, a `let`'s value or body, an `if`'s condition or
/// either branch, a `match`'s scrutinee or arm bodies, a block, a variant's
/// arguments or a list's elements) is among the io calls of `e`.
pub proof fn lemma_every_io_call_site_found(e: Expr, s: Expr, f: Seq<char>, effects: Map<Seq<char>, FnEffectInfo>)
    requires
        occurs(s, e),
        io_call_site(s, effects),
    ensures
        io_calls(e, f, effects).contains(site_call(s, f)),
    decreases e, 0nat,
{
    if s == e {
        let c = site_call(s, f);
        let callee = *e.kind->FnCall_callee;
        let args = e.kind->FnCall_args;
        assert(call_here(callee, e.span, f, effects) =~= seq![c]);
        assert(call_here(callee, e.span, f, effects)[0] == c);
        lemma_contains_concat(call_here(callee, e.span, f, effects), io_calls(callee, f, effects), c);
        lemma_contains_concat(call_here(callee, e.span, f, effects) + io_calls(callee, f, effects),
            io_calls_list(args@, f, effects), c);
        return;
    }
    match e.kind {
        ExprKind::FnCall { callee, args } => {
            let here = call_here(*callee, e.span, f, effects);
            if occurs(s, *callee) {
                lemma_every_io_call_site_found(*callee, s, f, effects);
                lemma_contains_concat(here, io_calls(*callee, f, effects), site_call(s, f));
                lemma_contains_concat(here + io_calls(*callee, f, effects), io_calls_list(args@, f, effects), site_call(s, f));
            } else {
                lemma_io_site_in_list(args@, s, f, effects);
                lemma_contains_concat(here + io_calls(*callee, f, effects), io_calls_list(args@, f, effects), site_call(s, f));
            }
        },
        ExprKind::BinaryOp { lhs, rhs, .. } => {
            if occurs(s, *lhs) { lemma_every_io_call_site_found(*lhs, s, f, effects); }
            else { lemma_every_io_call_site_found(*rhs, s, f, effects); }
            lemma_contains_concat(io_calls(*lhs, f, effects), io_calls(*rhs, f, effects), site_call(s, f));
        },
        ExprKind::UnaryOp { operand, .. } => lemma_every_io_call_site_found(*operand, s, f, effects),
        ExprKind::LetExpr { value, body, .. } => {
            if occurs(s, *value) { lemma_every_io_call_site_found(*value, s, f, effects); }
            else { lemma_every_io_call_site_found(*body, s, f, effects); }
            lemma_contains_concat(io_calls(*value, f, effects), io_calls(*body, f, effects), site_call(s, f));
        },
        ExprKind::IfElse { condition, then_branch, else_branch } => {
            let a = io_calls(*condition, f, effects);
            let b = io_calls(*then_branch, f, effects);
            let c = io_calls(*else_branch, f, effects);
            if occurs(s, *condition) { lemma_every_io_call_site_found(*condition, s, f, effects); }
            else if occurs(s, *then_branch) { lemma_every_io_call_site_found(*then_branch, s, f, effects); }
            else { lemma_every_io_call_site_found(*else_branch, s, f, effects); }
            lemma_contains_concat(a, b, site_call(s, f));
            lemma_contains_concat(a + b, c, site_call(s, f));
        },
        ExprKind::Match { scrutinee, arms } => {
            if occurs(s, *scrutinee) { lemma_every_io_call_site_found(*scrutinee, s, f, effects); }
            else { lemma_io_site_in_arms(arms@, s, f, effects); }
            lemma_contains_concat(io_calls(*scrutinee, f, effects), io_calls_arms(arms@, f, effects), site_call(s, f));
        },
        ExprKind::Block { exprs } => lemma_io_site_in_list(exprs@, s, f, effects),
        ExprKind::VariantConstruct { args, .. } => lemma_io_site_in_list(args@, s, f, effects),
        ExprKind::ListLiteral { elements } => lemma_io_site_in_list(elements@, s, f, effects),
        _ => {},
    }
}

/// Every io call site in one of `es` is among their io calls.
pub proof fn lemma_io_site_in_list(es: Seq<Expr>, s: Expr, f: Seq<char>, effects: Map<Seq<char>, FnEffectInfo>)
    requires
        occurs_in_list(s, es),
        io_call_site(s, effects),
    ensures
        io_calls_list(es, f, effects).contains(site_call(s, f)),
    decreases es, 1nat,
{
    if occurs(s, es[0]) {
        lemma_every_io_call_site_found(es[0], s, f, effects);
    } else {
        lemma_io_site_in_list(es.drop_first(), s, f, effects);
    }
    lemma_contains_concat(io_calls(es[0], f, effects), io_calls_list(es.drop_first(), f, effects), site_call(s, f));
}

/// Every io call site in an arm body is among the arms' io calls.
pub proof fn lemma_io_site_in_arms(arms: Seq<MatchArm>, s: Expr, f: Seq<char>, effects: Map<Seq<char>, FnEffectInfo>)
    requires
        occurs_in_arms(s, arms),
        io_call_site(s, effects),
    ensures
        io_calls_arms(arms, f, effects).contains(site_call(s, f)),
    decreases arms, 1nat,
{
    if occurs(s, arms[0].body) {
        lemma_every_io_call_site_found(arms[0].body, s, f, effects);
    } else {
        lemma_io_site_in_arms(arms.drop_first(), s, f, effects);
    }
    lemma_contains_concat(io_calls(arms[0].body, f, effects), io_calls_arms(arms.drop_first(), f, effects), site_call(s, f));
}

/// The io calls of the `i`-th declaration are among the program's.
pub proof fn lemma_decl_io_calls_in_program(ds: Seq<Decl>, effects: Map<Seq<char>, FnEffectInfo>, i: int, c: IoCall)
    requires
        0 <= i < ds.len(),
        decl_io_calls(ds[i], effects).contains(c),
    ensures
        program_io_calls(ds, effects).contains(c),
    decreases ds.len(),
{
    if i > 0 {
        lemma_decl_io_calls_in_program(ds.drop_first(), effects, i - 1, c);
    }
    lemma_contains_concat(decl_io_calls(ds[0], effects), program_io_calls(ds.drop_first(), effects), c);
}

/// What the effect check reports: for every pure function of the program
/// and every call of an io function anywhere in its body, some diagnostic
/// of the check is the E0300 "pure function `f` cannot call io function
/// `g`" at that call.
pub proof fn lemma_every_io_call_in_pure_fn_reported(ds: Seq<Decl>, effects: Map<Seq<char>, FnEffectInfo>,
    r: Seq<Diagnostic>, i: int, s: Expr)
    requires
        reports_after(seq![], r, program_io_calls(ds, effects)),
        0 <= i < ds.len(),
        ds[i].kind is FnDef,
        ds[i].kind->FnDef_effect == Effect::Pure,
        occurs(s, ds[i].kind->FnDef_body),
        io_call_site(s, effects),
    ensures
        exists|k: int| 0 <= k < r.len() && reports_io_call(#[trigger] r[k], site_call(s, ds[i].kind->FnDef_name@))
            && r[k].code.0@ == "E0300"@ && r[k].span == s.span
            && r[k].message@ == "pure function `"@ + ds[i].kind->FnDef_name@ + "` cannot call io function `"@
                + s.kind->FnCall_callee.kind->Ident_name@ + "`"@,
{
    let f = ds[i].kind->FnDef_name@;
    lemma_every_io_call_site_found(ds[i].kind->FnDef_body, s, f, effects);
    lemma_decl_io_calls_in_program(ds, effects, i, site_call(s, f));
    let cs = program_io_calls(ds, effects);
    let k = choose|k: int| 0 <= k < cs.len() && cs[k] == site_call(s, f);
    assert(reports_io_call(r[0 + k], cs[k]));
    assert(r[0 + k] == r[k]);
}

/// An io call site of `e`, if `c` is the io call of one.
pub open spec fn is_site_of(c: IoCall, e: Expr, f: Seq<char>, effects: Map<Seq<char>, FnEffectInfo>) -> bool {
    exists|s: Expr| #[trigger] occurs(s, e) && io_call_site(s, effects) && c == site_call(s, f)
}

/// Every io call of `e` is made by a call of an io function inside `e`:
/// together with [`lemma_every_io_call_site_found`], the io calls of `e`
/// are exactly the calls of io functions in it.
pub proof fn lemma_io_calls_are_sites(e: Expr, f: Seq<char>, effects: Map<Seq<char>, FnEffectInfo>, c: IoCall)
    requires
        io_calls(e, f, effects).contains(c),
    ensures
        is_site_of(c, e, f, effects),
    decreases e, 0nat,
{
    match e.kind {
        ExprKind::FnCall { callee, args } => {
            let here = call_here(*callee, e.span, f, effects);
            lemma_concat_contains_part(here + io_calls(*callee, f, effects), io_calls_list(args@, f, effects), c);
            if (here + io_calls(*callee, f, effects)).contains(c) {
                lemma_concat_contains_part(here, io_calls(*callee, f, effects), c);
                if here.contains(c) {
                    assert(occurs(e, e));
                    assert(c == site_call(e, f));
                } else {
                    lemma_io_calls_are_sites(*callee, f, effects, c);
                    let s = choose|s: Expr| #[trigger] occurs(s, *callee) && io_call_site(s, effects) && c == site_call(s, f);
                    assert(occurs(s, e));
                }
            } else {
                lemma_io_calls_list_are_sites(args@, f, effects, c);
                let s = choose|s: Expr| #[trigger] occurs_in_list(s, args@) && io_call_site(s, effects) && c == site_call(s, f);
                assert(occurs(s, e));
            }
        },
        ExprKind::BinaryOp { lhs, rhs, .. } => {
            lemma_concat_contains_part(io_calls(*lhs, f, effects), io_calls(*rhs, f, effects), c);
            if io_calls(*lhs, f, effects).contains(c) {
                lemma_io_calls_are_sites(*lhs, f, effects, c);
                let s = choose|s: Expr| #[trigger] occurs(s, *lhs) && io_call_site(s, effects) && c == site_call(s, f);
                assert(occurs(s, e));
            } else {
                lemma_io_calls_are_sites(*rhs, f, effects, c);
                let s = choose|s: Expr| #[trigger] occurs(s, *rhs) && io_call_site(s, effects) && c == site_call(s, f);
                assert(occurs(s, e));
            }
        },
        ExprKind::UnaryOp { operand, .. } => {
            lemma_io_calls_are_sites(*operand, f, effects, c);
            let s = choose|s: Expr| #[trigger] occurs(s, *operand) && io_call_site(s, effects) && c == site_call(s, f);
            assert(occurs(s, e));
        },
        ExprKind::LetExpr { value, body, .. } => {
            lemma_concat_contains_part(io_calls(*value, f, effects), io_calls(*body, f, effects), c);
            if io_calls(*value, f, effects).contains(c) {
                lemma_io_calls_are_sites(*value, f, effects, c);
                let s = choose|s: Expr| #[trigger] occurs(s, *value) && io_call_site(s, effects) && c == site_call(s, f);
                assert(occurs(s, e));
            } else {
                lemma_io_calls_are_sites(*body, f, effects, c);
                let s = choose|s: Expr| #[trigger] occurs(s, *body) && io_call_site(s, effects) && c == site_call(s, f);
                assert(occurs(s, e));
            }
        },
        ExprKind::IfElse { condition, then_branch, else_branch } => {
            let a = io_calls(*condition, f, effects);
            let b = io_calls(*then_branch, f, effects);
            lemma_concat_contains_part(a + b, io_calls(*else_branch, f, effects), c);
            if (a + b).contains(c) {
                lemma_concat_contains_part(a, b, c);
                if a.contains(c) {
                    lemma_io_calls_are_sites(*condition, f, effects, c);
                    let s = choose|s: Expr| #[trigger] occurs(s, *condition) && io_call_site(s, effects) && c == site_call(s, f);
                    assert(occurs(s, e));
                } else {
                    lemma_io_calls_are_sites(*then_branch, f, effects, c);
                    let s = choose|s: Expr| #[trigger] occurs(s, *then_branch) && io_call_site(s, effects) && c == site_call(s, f);
                    assert(occurs(s, e));
                }
            } else {
                lemma_io_calls_are_sites(*else_branch, f, effects, c);
                let s = choose|s: Expr| #[trigger] occurs(s, *else_branch) && io_call_site(s, effects) && c == site_call(s, f);
                assert(occurs(s, e));
            }
        },
        ExprKind::Match { scrutinee, arms } => {
            lemma_concat_contains_part(io_calls(*scrutinee, f, effects), io_calls_arms(arms@, f, effects), c);
            if io_calls(*scrutinee, f, effects).contains(c) {
                lemma_io_calls_are_sites(*scrutinee, f, effects, c);
                let s = choose|s: Expr| #[trigger] occurs(s, *scrutinee) && io_call_site(s, effects) && c == site_call(s, f);
                assert(occurs(s, e));
            } else {
                lemma_io_calls_arms_are_sites(arms@, f, effects, c);
                let s = choose|s: Expr| #[trigger] occurs_in_arms(s, arms@) && io_call_site(s, effects) && c == site_call(s, f);
                assert(occurs(s, e));
            }
        },
        ExprKind::Block { exprs } => {
            lemma_io_calls_list_are_sites(exprs@, f, effects, c);
            let s = choose|s: Expr| #[trigger] occurs_in_list(s, exprs@) && io_call_site(s, effects) && c == site_call(s, f);
            assert(occurs(s, e));
        },
        ExprKind::VariantConstruct { args, .. } => {
            lemma_io_calls_list_are_sites(args@, f, effects, c);
            let s = choose|s: Expr| #[trigger] occurs_in_list(s, args@) && io_call_site(s, effects) && c == site_call(s, f);
            assert(occurs(s, e));
        },
        ExprKind::ListLiteral { elements } => {
            lemma_io_calls_list_are_sites(elements@, f, effects, c);
            let s = choose|s: Expr| #[trigger] occurs_in_list(s, elements@) && io_call_site(s, effects) && c == site_call(s, f);
            assert(occurs(s, e));
        },
        _ => {},
    }
}

/// Every io call of `es` is made by a call of an io function in one of them.
pub proof fn lemma_io_calls_list_are_sites(es: Seq<Expr>, f: Seq<char>, effects: Map<Seq<char>, FnEffectInfo>, c: IoCall)
    requires
        io_calls_list(es, f, effects).contains(c),
    ensures
        exists|s: Expr| #[trigger] occurs_in_list(s, es) && io_call_site(s, effects) && c == site_call(s, f),
    decreases es, 1nat,
{
    lemma_concat_contains_part(io_calls(es[0], f, effects), io_calls_list(es.drop_first(), f, effects), c);
    if io_calls(es[0], f, effects).contains(c) {
        lemma_io_calls_are_sites(es[0], f, effects, c);
        let s = choose|s: Expr| #[trigger] occurs(s, es[0]) && io_call_site(s, effects) && c == site_call(s, f);
        assert(occurs_in_list(s, es));
    } else {
        lemma_io_calls_list_are_sites(es.drop_first(), f, effects, c);
        let s = choose|s: Expr| #[trigger] occurs_in_list(s, es.drop_first()) && io_call_site(s, effects) && c == site_call(s, f);
        assert(occurs_in_list(s, es));
    }
}

/// Every io call of the arms is made by a call of an io function in an arm body.
pub proof fn lemma_io_calls_arms_are_sites(arms: Seq<MatchArm>, f: Seq<char>, effects: Map<Seq<char>, FnEffectInfo>, c: IoCall)
    requires
        io_calls_arms(arms, f, effects).contains(c),
    ensures
        exists|s: Expr| #[trigger] occurs_in_arms(s, arms) && io_call_site(s, effects) && c == site_call(s, f),
    decreases arms, 1nat,
{
    lemma_concat_contains_part(io_calls(arms[0].body, f, effects), io_calls_arms(arms.drop_first(), f, effects), c);
    if io_calls(arms[0].body, f, effects).contains(c) {
        lemma_io_calls_are_sites(arms[0].body, f, effects, c);
        let s = choose|s: Expr| #[trigger] occurs(s, arms[0].body) && io_call_site(s, effects) && c == site_call(s, f);
        assert(occurs_in_arms(s, arms));
    } else {
        lemma_io_calls_arms_are_sites(arms.drop_first(), f, effects, c);
        let s = choose|s: Expr| #[trigger] occurs_in_arms(s, arms.drop_first()) && io_call_site(s, effects) && c == site_call(s, f);
        assert(occurs_in_arms(s, arms));
    }
}

} // verus!
