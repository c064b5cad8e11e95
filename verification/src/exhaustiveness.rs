//! Pattern match exhaustiveness checking: every `match` must cover all
//! values of the matched type, and arms after a catch-all arm are reported
//! as unreachable.
use vstd::prelude::*;
use crate::ast::{Program, Decl, DeclKind, Expr, ExprKind, LitValue, MatchArm, Pattern, PatternKind, occurs, occurs_in_list,
    occurs_in_arms, lemma_contains_concat};
use crate::diagnostics::{Diagnostic, Label, Span, Severity};
use crate::env::{TypeEnv, AdtInfo, VariantInfo};
use crate::unify::UnificationTable;
use crate::text::{owned, cat, append, eq_lit};

verus! {

/// What the exhaustiveness check reads of an environment: the ADT that
/// owns each variant name, and the variant names of each ADT.
pub struct ExhNames {
    pub owners: Map<Seq<char>, Seq<char>>,
    pub adts: Map<Seq<char>, Seq<Seq<char>>>,
}

/// The names of an environment that the exhaustiveness check reads.
pub open spec fn exh_names(env: TypeEnv) -> ExhNames {
    ExhNames {
        owners: Map::new(|k: Seq<char>| env.variant_defs@.contains_key(k), |k: Seq<char>| env.variant_defs@[k].adt_name@),
        adts: Map::new(|k: Seq<char>| env.adt_defs@.contains_key(k), |k: Seq<char>| variant_names(env.adt_defs@[k])),
    }
}

/// A diagnostic of the exhaustiveness check: code, message, span, whether
/// it is a warning (else an error), the text of its one label (over the
/// same span) and its help text.
pub struct ExDiag {
    pub code: Seq<char>,
    pub message: Seq<char>,
    pub span: Span,
    pub warning: bool,
    pub label: Seq<char>,
    pub help: Seq<char>,
}

/// A pattern that matches every value: a wildcard or a binding.
pub open spec fn is_catch_all(p: Pattern) -> bool {
    p.kind is Wildcard || p.kind is Ident
}

/// Whether some arm of `arms` has a catch-all pattern.
pub open spec fn has_catch_all(arms: Seq<MatchArm>) -> bool {
    exists|i: int| 0 <= i < arms.len() && is_catch_all(#[trigger] arms[i].pattern)
}

/// The unreachable-pattern warnings for the arms from `i` on, `seen` saying
/// whether an earlier arm is a catch-all.
pub open spec fn unreachable_from(arms: Seq<MatchArm>, i: int, seen: bool) -> Seq<ExDiag>
    decreases arms.len() - i,
{
    if i < 0 || i >= arms.len() {
        seq![]
    } else {
        let here = if seen {
            seq![ExDiag { code: "E0401"@, message: "unreachable pattern"@, span: arms[i].pattern.span, warning: true,
                label: "this pattern is unreachable"@, help: "a previous pattern already matches all values"@ }]
        } else {
            seq![]
        };
        here + unreachable_from(arms, i + 1, seen || is_catch_all(arms[i].pattern))
    }
}

/// The kind of value a match is over, as its patterns show it.
pub enum ScrutineeKind {
    Bool,
    Infinite,
    Adt(Seq<char>),
    Option,
    Result,
    Unknown,
}

/// The kind of the scrutinee shown by the first telling pattern from arm `i`
/// on: a literal, a builtin variant, or a variant known to `variants`.
pub open spec fn scrutinee_kind(arms: Seq<MatchArm>, i: int, variants: Map<Seq<char>, VariantInfo>) -> ScrutineeKind
    decreases arms.len() - i,
{
    if i < 0 || i >= arms.len() {
        ScrutineeKind::Unknown
    } else {
        match arms[i].pattern.kind {
            PatternKind::Literal { value } => match value {
                LitValue::Bool(_) => ScrutineeKind::Bool,
                _ => ScrutineeKind::Infinite,
            },
            PatternKind::Variant { name, .. } => {
                if name@ == "Some"@ || name@ == "None"@ {
                    ScrutineeKind::Option
                } else if name@ == "Ok"@ || name@ == "Err"@ {
                    ScrutineeKind::Result
                } else if variants.contains_key(name@) {
                    ScrutineeKind::Adt(variants[name@].adt_name@)
                } else {
                    scrutinee_kind(arms, i + 1, variants)
                }
            },
            _ => scrutinee_kind(arms, i + 1, variants),
        }
    }
}

/// Whether `p` is the boolean literal `b`.
pub open spec fn is_bool_lit(p: Pattern, b: bool) -> bool {
    match p.kind {
        PatternKind::Literal { value } => value matches LitValue::Bool(x) && x == b,
        _ => false,
    }
}

/// Whether some arm's pattern is the boolean literal `b`.
pub open spec fn has_bool(arms: Seq<MatchArm>, b: bool) -> bool {
    exists|i: int| 0 <= i < arms.len() && #[trigger] is_bool_lit(arms[i].pattern, b)
}

/// Whether `p` is a variant pattern named `n`.
pub open spec fn is_variant_named(p: Pattern, n: Seq<char>) -> bool {
    match p.kind {
        PatternKind::Variant { name, .. } => name@ == n,
        _ => false,
    }
}

/// Whether some arm's pattern is a variant named `n`.
pub open spec fn has_variant(arms: Seq<MatchArm>, n: Seq<char>) -> bool {
    exists|i: int| 0 <= i < arms.len() && #[trigger] is_variant_named(arms[i].pattern, n)
}

/// The names joined with `", "`.
pub open spec fn join_names(names: Seq<Seq<char>>) -> Seq<char>
    decreases names.len(),
{
    if names.len() == 0 {
        seq![]
    } else if names.len() == 1 {
        names[0]
    } else {
        names[0] + ", "@ + join_names(names.drop_first())
    }
}

/// The patterns of `names` that no arm covers, keeping their order.
pub open spec fn missing_names(names: Seq<Seq<char>>, arms: Seq<MatchArm>) -> Seq<Seq<char>>
    decreases names.len(),
{
    if names.len() == 0 {
        seq![]
    } else {
        let rest = missing_names(names.drop_first(), arms);
        if has_variant(arms, names[0]) { rest } else { seq![names[0]] + rest }
    }
}

/// The error for a match missing the patterns `missing` (none when nothing
/// is missing).
pub open spec fn missing_diag(missing: Seq<Seq<char>>, span: Span) -> Seq<ExDiag> {
    if missing.len() == 0 {
        seq![]
    } else {
        seq![ExDiag {
            code: "E0400"@,
            message: "non-exhaustive match: missing pattern(s): "@ + join_names(missing),
            span,
            warning: false,
            label: "match is not exhaustive"@,
            help: "add arm(s) for: "@ + join_names(missing),
        }]
    }
}

/// The names of the variants of an ADT.
pub open spec fn variant_names(adt: AdtInfo) -> Seq<Seq<char>> {
    adt.variants@.map_values(|v: VariantInfo| v.name@)
}

/// The coverage diagnostics of a match without a catch-all arm.
pub open spec fn coverage_diags(scrutinee: Expr, arms: Seq<MatchArm>, env: TypeEnv) -> Seq<ExDiag> {
    match scrutinee_kind(arms, 0, env.variant_defs@) {
        ScrutineeKind::Bool => missing_diag(
            (if has_bool(arms, true) { seq![] } else { seq!["true"@] })
                + (if has_bool(arms, false) { seq![] } else { seq!["false"@] }), scrutinee.span),
        ScrutineeKind::Adt(n) => if env.adt_defs@.contains_key(n) {
            missing_diag(missing_names(variant_names(env.adt_defs@[n]), arms), scrutinee.span)
        } else {
            seq![]
        },
        ScrutineeKind::Option => missing_diag(
            (if has_variant(arms, "Some"@) { seq![] } else { seq!["Some(_)"@] })
                + (if has_variant(arms, "None"@) { seq![] } else { seq!["None"@] }), scrutinee.span),
        ScrutineeKind::Result => missing_diag(
            (if has_variant(arms, "Ok"@) { seq![] } else { seq!["Ok(_)"@] })
                + (if has_variant(arms, "Err"@) { seq![] } else { seq!["Err(_)"@] }), scrutinee.span),
        ScrutineeKind::Infinite => seq![ExDiag {
            code: "E0400"@,
            message: "non-exhaustive match: pattern matching on a type with infinite values requires a wildcard `_` pattern"@,
            span: scrutinee.span,
            warning: false,
            label: "match is not exhaustive"@,
            help: "add a `_ -> ...` arm to handle remaining cases"@,
        }],
        ScrutineeKind::Unknown => seq![],
    }
}

/// The diagnostics of one match: unreachable arms, then, without a
/// catch-all arm, missing coverage.
pub open spec fn match_diags(scrutinee: Expr, arms: Seq<MatchArm>, env: TypeEnv) -> Seq<ExDiag> {
    unreachable_from(arms, 0, false) + (if has_catch_all(arms) { seq![] } else { coverage_diags(scrutinee, arms, env) })
}

/// The diagnostics of every match in `e`, inner matches first.
pub open spec fn exh_diags(e: Expr, env: TypeEnv) -> Seq<ExDiag>
    decreases e, 0nat,
{
    match e.kind {
        ExprKind::Match { scrutinee, arms } =>
            exh_diags(*scrutinee, env) + exh_diags_arms(arms@, env) + match_diags(*scrutinee, arms@, env),
        ExprKind::BinaryOp { lhs, rhs, .. } => exh_diags(*lhs, env) + exh_diags(*rhs, env),
        ExprKind::UnaryOp { operand, .. } => exh_diags(*operand, env),
        ExprKind::FnCall { callee, args } => exh_diags(*callee, env) + exh_diags_list(args@, env),
        ExprKind::LetExpr { value, body, .. } => exh_diags(*value, env) + exh_diags(*body, env),
        ExprKind::IfElse { condition, then_branch, else_branch } =>
            exh_diags(*condition, env) + exh_diags(*then_branch, env) + exh_diags(*else_branch, env),
        ExprKind::Block { exprs } => exh_diags_list(exprs@, env),
        ExprKind::VariantConstruct { args, .. } => exh_diags_list(args@, env),
        ExprKind::ListLiteral { elements } => exh_diags_list(elements@, env),
        _ => seq![],
    }
}

/// The diagnostics of a list of expressions, in order.
pub open spec fn exh_diags_list(es: Seq<Expr>, env: TypeEnv) -> Seq<ExDiag>
    decreases es, 1nat,
{
    if es.len() == 0 { seq![] } else { exh_diags(es[0], env) + exh_diags_list(es.drop_first(), env) }
}

/// The diagnostics of the bodies of match arms, in order.
pub open spec fn exh_diags_arms(arms: Seq<MatchArm>, env: TypeEnv) -> Seq<ExDiag>
    decreases arms, 1nat,
{
    if arms.len() == 0 { seq![] } else { exh_diags(arms[0].body, env) + exh_diags_arms(arms.drop_first(), env) }
}

/// The diagnostics of a declaration: those of a function's body or of a
/// let binding's value.
pub open spec fn decl_exh_diags(d: Decl, env: TypeEnv) -> Seq<ExDiag> {
    match d.kind {
        DeclKind::FnDef { body, .. } => exh_diags(body, env),
        DeclKind::LetDef { value, .. } => exh_diags(value, env),
        _ => seq![],
    }
}

/// The diagnostics of the declarations `ds`, in order.
pub open spec fn program_exh_diags(ds: Seq<Decl>, env: TypeEnv) -> Seq<ExDiag>
    decreases ds.len(),
{
    if ds.len() == 0 { seq![] } else { decl_exh_diags(ds[0], env) + program_exh_diags(ds.drop_first(), env) }
}

/// Whether `d` is the diagnostic `x`.
pub open spec fn is_exdiag(d: Diagnostic, x: ExDiag) -> bool {
    &&& d.code.0@ == x.code
    &&& d.message@ == x.message
    &&& d.span == x.span
    &&& d.severity == (if x.warning { Severity::Warning } else { Severity::Error })
    &&& d.labels@.len() == 1
    &&& d.labels@[0].span == x.span
    &&& d.labels@[0].message@ == x.label
    &&& d.notes@.len() == 0
    &&& d.help matches Some(h) && h@ == x.help
    &&& d.quickfixes@.len() == 0
}

/// `new_ds` is `old_ds` followed by the diagnostics `xs`.
pub open spec fn emits(old_ds: Seq<Diagnostic>, new_ds: Seq<Diagnostic>, xs: Seq<ExDiag>) -> bool {
    &&& new_ds.len() == old_ds.len() + xs.len()
    &&& new_ds.subrange(0, old_ds.len() as int) == old_ds
    &&& forall|k: int| 0 <= k < xs.len() ==> is_exdiag(#[trigger] new_ds[old_ds.len() + k], xs[k])
}

/// Emitting nothing.
pub proof fn lemma_emits_none(ds: Seq<Diagnostic>)
    ensures
        emits(ds, ds, seq![]),
{
    assert(ds.subrange(0, ds.len() as int) =~= ds);
}

/// Emitting one diagnostic by pushing it.
pub proof fn lemma_emits_push(ds: Seq<Diagnostic>, d: Diagnostic, x: ExDiag)
    requires
        is_exdiag(d, x),
    ensures
        emits(ds, ds.push(d), seq![x]),
{
    assert(ds.push(d).subrange(0, ds.len() as int) =~= ds);
    assert(ds.push(d)[ds.len() as int] == d);
}

/// Emissions compose.
pub proof fn lemma_emits_trans(a: Seq<Diagnostic>, b: Seq<Diagnostic>, c: Seq<Diagnostic>, x: Seq<ExDiag>, y: Seq<ExDiag>)
    requires
        emits(a, b, x),
        emits(b, c, y),
    ensures
        emits(a, c, x + y),
{
    assert(c.subrange(0, a.len() as int) =~= a) by {
        assert forall|k: int| 0 <= k < a.len() implies c[k] == a[k] by {
            assert(c[k] == c.subrange(0, b.len() as int)[k]);
            assert(b[k] == b.subrange(0, a.len() as int)[k]);
        }
    }
    assert forall|k: int| 0 <= k < (x + y).len() implies is_exdiag(#[trigger] c[a.len() + k], (x + y)[k]) by {
        if k < x.len() {
            assert(c[a.len() + k] == c.subrange(0, b.len() as int)[a.len() + k]);
            assert(is_exdiag(b[a.len() + k], x[k]));
        } else {
            assert(is_exdiag(c[b.len() + (k - x.len())], y[k - x.len()]));
        }
    }
}


/// What type a match is over, as its patterns show it.
pub enum ScrutineeType {
    Bool,
    Int,
    Float,
    String,
    ADT(String),
    Option,
    Result,
    Unknown,
}

/// The kind of a scrutinee type.
pub open spec fn kind_of(t: ScrutineeType) -> ScrutineeKind {
    match t {
        ScrutineeType::Bool => ScrutineeKind::Bool,
        ScrutineeType::Int => ScrutineeKind::Infinite,
        ScrutineeType::Float => ScrutineeKind::Infinite,
        ScrutineeType::String => ScrutineeKind::Infinite,
        ScrutineeType::ADT(n) => ScrutineeKind::Adt(n@),
        ScrutineeType::Option => ScrutineeKind::Option,
        ScrutineeType::Result => ScrutineeKind::Result,
        ScrutineeType::Unknown => ScrutineeKind::Unknown,
    }
}

/// Check if a pattern is a catch-all (matches everything).
fn is_catch_all_pattern(pattern: &Pattern) -> (r: bool)
    ensures
        r == is_catch_all(*pattern),
{
    match pattern.kind {
        PatternKind::Wildcard => true,
        PatternKind::Ident { .. } => true,
        _ => false,
    }
}

/// Determine the type being matched from the patterns.
fn infer_scrutinee_type_from_patterns(arms: &Vec<MatchArm>, env: &TypeEnv, _table: &UnificationTable) -> (r: ScrutineeType)
    ensures
        kind_of(r) == scrutinee_kind(arms@, 0, env.variant_defs@),
{
    let mut i: usize = 0;
    while i < arms.len()
        invariant
            i <= arms@.len(),
            scrutinee_kind(arms@, 0, env.variant_defs@) == scrutinee_kind(arms@, i as int, env.variant_defs@),
        decreases arms@.len() - i,
    {
        match &arms[i].pattern.kind {
            PatternKind::Literal { value } => {
                match value {
                    LitValue::Bool(_) => { return ScrutineeType::Bool; }
                    LitValue::Int(_) => { return ScrutineeType::Int; }
                    LitValue::Float(_) => { return ScrutineeType::Float; }
                    _ => { return ScrutineeType::String; }
                }
            }
            PatternKind::Variant { name, .. } => {
                if eq_lit(name, "Some") || eq_lit(name, "None") {
                    return ScrutineeType::Option;
                }
                if eq_lit(name, "Ok") || eq_lit(name, "Err") {
                    return ScrutineeType::Result;
                }
                if let Some(info) = env.variant_defs.get(name.as_str()) {
                    return ScrutineeType::ADT(info.adt_name.clone());
                }
            }
            _ => {}
        }
        i = i + 1;
    }
    ScrutineeType::Unknown
}

/// Whether some arm's pattern is the boolean literal `b`.
fn has_bool_arm(arms: &Vec<MatchArm>, b: bool) -> (r: bool)
    ensures
        r == has_bool(arms@, b),
{
    let mut i: usize = 0;
    while i < arms.len()
        invariant
            i <= arms@.len(),
            forall|j: int| 0 <= j < i ==> !is_bool_lit(#[trigger] arms@[j].pattern, b),
        decreases arms@.len() - i,
    {
        if let PatternKind::Literal { value: LitValue::Bool(x) } = &arms[i].pattern.kind {
            if *x == b {
                proof { assert(is_bool_lit(arms@[i as int].pattern, b)); }
                return true;
            }
        }
        i = i + 1;
    }
    false
}

/// Whether some arm's pattern is a variant named `n`.
fn has_variant_arm(arms: &Vec<MatchArm>, n: &str) -> (r: bool)
    ensures
        r == has_variant(arms@, n@),
{
    let mut i: usize = 0;
    while i < arms.len()
        invariant
            i <= arms@.len(),
            forall|j: int| 0 <= j < i ==> !is_variant_named(#[trigger] arms@[j].pattern, n@),
        decreases arms@.len() - i,
    {
        if let PatternKind::Variant { name, .. } = &arms[i].pattern.kind {
            if eq_lit(name, n) {
                proof { assert(is_variant_named(arms@[i as int].pattern, n@)); }
                return true;
            }
        }
        i = i + 1;
    }
    false
}

/// The character views of a list of strings.
pub open spec fn views(v: Seq<String>) -> Seq<Seq<char>> {
    v.map_values(|s: String| s@)
}

/// The strings joined with `", "`.
fn join_strings(v: &Vec<String>) -> (r: String)
    ensures
        r@ == join_names(views(v@)),
{
    let ghost all = views(v@);
    if v.len() == 0 {
        return String::new();
    }
    let mut out = v[v.len() - 1].clone();
    let mut i: usize = v.len() - 1;
    proof {
        assert(all.subrange(i as int, all.len() as int) =~= seq![all[i as int]]);
    }
    while i > 0
        invariant
            0 <= i < v@.len(),
            all == views(v@),
            out@ == join_names(all.subrange(i as int, all.len() as int)),
        decreases i,
    {
        let mut s = v[i - 1].clone();
        append(&mut s, ", ");
        append(&mut s, out.as_str());
        proof {
            let sub = all.subrange(i - 1, all.len() as int);
            assert(sub.drop_first() =~= all.subrange(i as int, all.len() as int));
            assert(sub[0] == all[i - 1]);
        }
        out = s;
        i = i - 1;
    }
    proof { assert(all.subrange(0, all.len() as int) =~= all); }
    out
}

/// Reports a match missing the patterns `missing`, if any.
fn report_missing(missing: &Vec<String>, scrutinee: &Expr, diagnostics: &mut Vec<Diagnostic>)
    ensures
        emits(old(diagnostics)@, final(diagnostics)@, missing_diag(views(missing@), scrutinee.span)),
{
    if missing.len() == 0 {
        proof { lemma_emits_none(diagnostics@); }
        return;
    }
    let list = join_strings(missing);
    let msg = cat(owned("non-exhaustive match: missing pattern(s): "), list.as_str());
    let help = cat(owned("add arm(s) for: "), list.as_str());
    let d = Diagnostic::with_severity("E0400", Severity::Error, msg, scrutinee.span)
        .with_label(Label::new(scrutinee.span, "match is not exhaustive"));
    let d = Diagnostic { help: Some(help), ..d };
    let ghost x = ExDiag {
        code: "E0400"@,
        message: "non-exhaustive match: missing pattern(s): "@ + join_names(views(missing@)),
        span: scrutinee.span,
        warning: false,
        label: "match is not exhaustive"@,
        help: "add arm(s) for: "@ + join_names(views(missing@)),
    };
    proof { lemma_emits_push(diagnostics@, d, x); }
    diagnostics.push(d);
}

/// Two optional missing patterns, in order.
fn missing_pair(have_a: bool, a: &str, have_b: bool, b: &str) -> (r: Vec<String>)
    ensures
        views(r@) == (if have_a { Seq::<Seq<char>>::empty() } else { seq![a@] })
            + (if have_b { Seq::<Seq<char>>::empty() } else { seq![b@] }),
{
    let mut m: Vec<String> = Vec::new();
    if !have_a {
        m.push(owned(a));
    }
    let ghost mid = m@;
    if !have_b {
        m.push(owned(b));
    }
    proof {
        assert(views(m@) =~= (if have_a { Seq::<Seq<char>>::empty() } else { seq![a@] })
            + (if have_b { Seq::<Seq<char>>::empty() } else { seq![b@] }));
    }
    m
}

/// Check a single match expression for unreachable arms and exhaustiveness.
fn check_match_exhaustiveness(scrutinee: &Expr, arms: &Vec<MatchArm>, env: &TypeEnv, table: &UnificationTable,
    diagnostics: &mut Vec<Diagnostic>)
    ensures
        emits(old(diagnostics)@, final(diagnostics)@, match_diags(*scrutinee, arms@, *env)),
{
    let ghost start = diagnostics@;
    let ghost mut done: Seq<ExDiag> = seq![];
    let mut has_wildcard = false;
    let mut i: usize = 0;
    proof { lemma_emits_none(diagnostics@); }
    while i < arms.len()
        invariant
            i <= arms@.len(),
            emits(start, diagnostics@, done),
            unreachable_from(arms@, 0, false) == done + unreachable_from(arms@, i as int, has_wildcard),
            has_wildcard == exists|j: int| 0 <= j < i && is_catch_all(#[trigger] arms@[j].pattern),
        decreases arms@.len() - i,
    {
        let ghost before = diagnostics@;
        let ghost here = if has_wildcard {
            seq![ExDiag { code: "E0401"@, message: "unreachable pattern"@, span: arms@[i as int].pattern.span, warning: true,
                label: "this pattern is unreachable"@, help: "a previous pattern already matches all values"@ }]
        } else {
            Seq::<ExDiag>::empty()
        };
        if has_wildcard {
            let span = arms[i].pattern.span;
            let d = Diagnostic::warning("E0401", "unreachable pattern", span)
                .with_label(Label::new(span, "this pattern is unreachable"))
                .with_help("a previous pattern already matches all values");
            proof { lemma_emits_push(diagnostics@, d, here[0]); assert(seq![here[0]] =~= here); }
            diagnostics.push(d);
        } else {
            proof { lemma_emits_none(diagnostics@); }
        }
        let c = is_catch_all_pattern(&arms[i].pattern);
        proof {
            lemma_emits_trans(start, before, diagnostics@, done, here);
            let rest = unreachable_from(arms@, i + 1, has_wildcard || c);
            assert(done + here + rest =~= done + (here + rest));
            done = done + here;
        }
        if c {
            has_wildcard = true;
        }
        i = i + 1;
    }
    proof {
        assert(unreachable_from(arms@, i as int, has_wildcard) =~= Seq::<ExDiag>::empty());
        assert(done + Seq::<ExDiag>::empty() =~= done);
    }
    if has_wildcard {
        proof { assert(match_diags(*scrutinee, arms@, *env) =~= done + Seq::<ExDiag>::empty()); }
        return;
    }
    proof {
        assert(!has_catch_all(arms@));
    }
    let ghost mid = diagnostics@;
    let scrutinee_type = infer_scrutinee_type_from_patterns(arms, env, table);
    match scrutinee_type {
        ScrutineeType::Bool => {
            let m = missing_pair(has_bool_arm(arms, true), "true", has_bool_arm(arms, false), "false");
            report_missing(&m, scrutinee, diagnostics);
        }
        ScrutineeType::ADT(adt_name) => {
            match env.adt_defs.get(adt_name.as_str()) {
                Some(info) => {
                    let ghost names = variant_names(*info);
                    let mut missing: Vec<String> = Vec::new();
                    let mut k: usize = 0;
                    proof { assert(names.subrange(0, names.len() as int) =~= names); }
                    while k < info.variants.len()
                        invariant
                            k <= info.variants@.len(),
                            names == variant_names(*info),
                            names.len() == info.variants@.len(),
                            missing_names(names, arms@) == views(missing@) + missing_names(names.subrange(k as int, names.len() as int), arms@),
                        decreases info.variants@.len() - k,
                    {
                        let ghost rest = names.subrange(k as int, names.len() as int);
                        proof {
                            assert(rest[0] == info.variants@[k as int].name@);
                            assert(rest.drop_first() =~= names.subrange(k + 1, names.len() as int));
                        }
                        let ghost pre = views(missing@);
                        if !has_variant_arm(arms, info.variants[k].name.as_str()) {
                            missing.push(info.variants[k].name.clone());
                            proof {
                                assert(views(missing@) =~= pre + seq![rest[0]]);
                                let r2 = missing_names(names.subrange(k + 1, names.len() as int), arms@);
                                assert(pre + (seq![rest[0]] + r2) =~= pre + seq![rest[0]] + r2);
                            }
                        }
                        k = k + 1;
                    }
                    proof {
                        assert(names.subrange(k as int, names.len() as int) =~= Seq::<Seq<char>>::empty());
                        assert(views(missing@) + Seq::<Seq<char>>::empty() =~= views(missing@));
                    }
                    report_missing(&missing, scrutinee, diagnostics);
                }
                None => {
                    proof { lemma_emits_none(diagnostics@); }
                }
            }
        }
        ScrutineeType::Option => {
            let m = missing_pair(has_variant_arm(arms, "Some"), "Some(_)", has_variant_arm(arms, "None"), "None");
            report_missing(&m, scrutinee, diagnostics);
        }
        ScrutineeType::Result => {
            let m = missing_pair(has_variant_arm(arms, "Ok"), "Ok(_)", has_variant_arm(arms, "Err"), "Err(_)");
            report_missing(&m, scrutinee, diagnostics);
        }
        ScrutineeType::Unknown => {
            proof { lemma_emits_none(diagnostics@); }
        }
        _ => {
            let d = Diagnostic::error("E0400",
                "non-exhaustive match: pattern matching on a type with infinite values requires a wildcard `_` pattern",
                scrutinee.span)
                .with_label(Label::new(scrutinee.span, "match is not exhaustive"))
                .with_help("add a `_ -> ...` arm to handle remaining cases");
            let ghost x = ExDiag {
                code: "E0400"@,
                message: "non-exhaustive match: pattern matching on a type with infinite values requires a wildcard `_` pattern"@,
                span: scrutinee.span,
                warning: false,
                label: "match is not exhaustive"@,
                help: "add a `_ -> ...` arm to handle remaining cases"@,
            };
            proof { lemma_emits_push(diagnostics@, d, x); }
            diagnostics.push(d);
        }
    }
    proof {
        lemma_emits_trans(start, mid, diagnostics@, done, coverage_diags(*scrutinee, arms@, *env));
    }
}


/// Check all match expressions in a program for exhaustiveness: the
/// diagnostics of every function body and let value, in order.
pub fn check_exhaustiveness(program: &Program, env: &TypeEnv, table: &UnificationTable) -> (r: Vec<Diagnostic>)
    ensures
        emits(seq![], r@, program_exh_diags(program.decls@, *env)),
{
    let mut diagnostics: Vec<Diagnostic> = Vec::new();
    let ghost ds = program.decls@;
    let ghost mut done: Seq<ExDiag> = seq![];
    proof {
        lemma_emits_none(diagnostics@);
        assert(ds.subrange(0, ds.len() as int) =~= ds);
        assert(done + program_exh_diags(ds, *env) =~= program_exh_diags(ds, *env));
    }
    let mut i: usize = 0;
    while i < program.decls.len()
        invariant
            i <= ds.len(),
            ds == program.decls@,
            emits(seq![], diagnostics@, done),
            program_exh_diags(ds, *env) == done + program_exh_diags(ds.subrange(i as int, ds.len() as int), *env),
        decreases ds.len() - i,
    {
        let decl = &program.decls[i];
        let ghost rest = ds.subrange(i as int, ds.len() as int);
        let ghost before = diagnostics@;
        let ghost here = decl_exh_diags(*decl, *env);
        proof {
            assert(rest[0] == *decl);
            assert(rest.drop_first() =~= ds.subrange(i + 1, ds.len() as int));
        }
        match &decl.kind {
            DeclKind::FnDef { body, .. } => {
                check_expr_exhaustiveness(body, env, table, &mut diagnostics);
            }
            DeclKind::LetDef { value, .. } => {
                check_expr_exhaustiveness(value, env, table, &mut diagnostics);
            }
            _ => {
                proof { lemma_emits_none(diagnostics@); }
            }
        }
        proof {
            lemma_emits_trans(seq![], before, diagnostics@, done, here);
            let r2 = program_exh_diags(ds.subrange(i + 1, ds.len() as int), *env);
            assert(done + here + r2 =~= done + (here + r2));
            done = done + here;
        }
        i = i + 1;
    }
    proof {
        assert(ds.subrange(i as int, ds.len() as int) =~= Seq::<Decl>::empty());
        assert(done + Seq::<ExDiag>::empty() =~= done);
    }
    diagnostics
}

/// Recursively check expressions for match exhaustiveness.
fn check_expr_exhaustiveness(expr: &Expr, env: &TypeEnv, table: &UnificationTable, diagnostics: &mut Vec<Diagnostic>)
    ensures
        emits(old(diagnostics)@, final(diagnostics)@, exh_diags(*expr, *env)),
    decreases expr, 1nat,
{
    match &expr.kind {
        ExprKind::Match { scrutinee, arms } => {
            let ghost start = diagnostics@;
            check_expr_exhaustiveness(scrutinee, env, table, diagnostics);
            let ghost mid = diagnostics@;
            let mut i: usize = 0;
            let ghost mut done: Seq<ExDiag> = seq![];
            proof {
                lemma_emits_none(diagnostics@);
                assert(arms@.subrange(0, arms@.len() as int) =~= arms@);
                assert(done + exh_diags_arms(arms@, *env) =~= exh_diags_arms(arms@, *env));
                assert forall|k: int| 0 <= k < arms@.len() implies decreases_to!(expr => #[trigger] arms@[k].body) by {
                    assert(decreases_to!(expr => arms@[k]));
                }
            }
            while i < arms.len()
                invariant
                    i <= arms@.len(),
                    forall|k: int| 0 <= k < arms@.len() ==> decreases_to!(expr => #[trigger] arms@[k].body),
                    emits(mid, diagnostics@, done),
                    exh_diags_arms(arms@, *env) == done + exh_diags_arms(arms@.subrange(i as int, arms@.len() as int), *env),
                decreases arms@.len() - i,
            {
                proof { assert(decreases_to!(expr => arms@[i as int].body)); }
                let ghost rest = arms@.subrange(i as int, arms@.len() as int);
                let ghost before = diagnostics@;
                proof {
                    assert(rest[0] == arms@[i as int]);
                    assert(rest.drop_first() =~= arms@.subrange(i + 1, arms@.len() as int));
                }
                check_expr_exhaustiveness(&arms[i].body, env, table, diagnostics);
                proof {
                    let x = exh_diags(arms@[i as int].body, *env);
                    lemma_emits_trans(mid, before, diagnostics@, done, x);
                    let r2 = exh_diags_arms(arms@.subrange(i + 1, arms@.len() as int), *env);
                    assert(done + x + r2 =~= done + (x + r2));
                    done = done + x;
                }
                i = i + 1;
            }
            proof {
                assert(arms@.subrange(i as int, arms@.len() as int) =~= Seq::<MatchArm>::empty());
                assert(done + Seq::<ExDiag>::empty() =~= done);
                lemma_emits_trans(start, mid, diagnostics@, exh_diags(**scrutinee, *env), done);
            }
            let ghost m2 = diagnostics@;
            check_match_exhaustiveness(scrutinee, arms, env, table, diagnostics);
            proof {
                lemma_emits_trans(start, m2, diagnostics@, exh_diags(**scrutinee, *env) + done,
                    match_diags(**scrutinee, arms@, *env));
            }
        }
        ExprKind::BinaryOp { lhs, rhs, .. } => {
            let ghost start = diagnostics@;
            check_expr_exhaustiveness(lhs, env, table, diagnostics);
            let ghost mid = diagnostics@;
            check_expr_exhaustiveness(rhs, env, table, diagnostics);
            proof { lemma_emits_trans(start, mid, diagnostics@, exh_diags(**lhs, *env), exh_diags(**rhs, *env)); }
        }
        ExprKind::UnaryOp { operand, .. } => {
            check_expr_exhaustiveness(operand, env, table, diagnostics);
        }
        ExprKind::FnCall { callee, args } => {
            let ghost start = diagnostics@;
            check_expr_exhaustiveness(callee, env, table, diagnostics);
            check_list_exhaustiveness(expr, args, env, table, diagnostics, Ghost(start), Ghost(exh_diags(**callee, *env)));
        }
        ExprKind::LetExpr { value, body, .. } => {
            let ghost start = diagnostics@;
            check_expr_exhaustiveness(value, env, table, diagnostics);
            let ghost mid = diagnostics@;
            check_expr_exhaustiveness(body, env, table, diagnostics);
            proof { lemma_emits_trans(start, mid, diagnostics@, exh_diags(**value, *env), exh_diags(**body, *env)); }
        }
        ExprKind::IfElse { condition, then_branch, else_branch } => {
            let ghost start = diagnostics@;
            check_expr_exhaustiveness(condition, env, table, diagnostics);
            let ghost m1 = diagnostics@;
            check_expr_exhaustiveness(then_branch, env, table, diagnostics);
            let ghost m2 = diagnostics@;
            check_expr_exhaustiveness(else_branch, env, table, diagnostics);
            proof {
                lemma_emits_trans(start, m1, m2, exh_diags(**condition, *env), exh_diags(**then_branch, *env));
                lemma_emits_trans(start, m2, diagnostics@,
                    exh_diags(**condition, *env) + exh_diags(**then_branch, *env), exh_diags(**else_branch, *env));
            }
        }
        ExprKind::Block { exprs } => {
            proof { lemma_emits_none(diagnostics@); }
            let ghost start = diagnostics@;
            check_list_exhaustiveness(expr, exprs, env, table, diagnostics, Ghost(start), Ghost(Seq::<ExDiag>::empty()));
            proof { assert(Seq::<ExDiag>::empty() + exh_diags_list(exprs@, *env) =~= exh_diags_list(exprs@, *env)); }
        }
        ExprKind::VariantConstruct { args, .. } => {
            proof { lemma_emits_none(diagnostics@); }
            let ghost start = diagnostics@;
            check_list_exhaustiveness(expr, args, env, table, diagnostics, Ghost(start), Ghost(Seq::<ExDiag>::empty()));
            proof { assert(Seq::<ExDiag>::empty() + exh_diags_list(args@, *env) =~= exh_diags_list(args@, *env)); }
        }
        ExprKind::ListLiteral { elements } => {
            proof { lemma_emits_none(diagnostics@); }
            let ghost start = diagnostics@;
            check_list_exhaustiveness(expr, elements, env, table, diagnostics, Ghost(start), Ghost(Seq::<ExDiag>::empty()));
            proof { assert(Seq::<ExDiag>::empty() + exh_diags_list(elements@, *env) =~= exh_diags_list(elements@, *env)); }
        }
        _ => {
            proof { lemma_emits_none(diagnostics@); }
        }
    }
}

/// Checks the sub-expressions `es` of `parent` in order, after the
/// diagnostics `acc` were emitted from `start` on.
fn check_list_exhaustiveness(parent: &Expr, es: &Vec<Expr>, env: &TypeEnv, table: &UnificationTable,
    diagnostics: &mut Vec<Diagnostic>, Ghost(start): Ghost<Seq<Diagnostic>>, Ghost(acc): Ghost<Seq<ExDiag>>)
    requires
        emits(start, old(diagnostics)@, acc),
        forall|k: int| 0 <= k < es@.len() ==> decreases_to!(parent => #[trigger] es@[k]),
    ensures
        emits(start, final(diagnostics)@, acc + exh_diags_list(es@, *env)),
    decreases parent, 0nat,
{
    let ghost mut done = acc;
    let mut i: usize = 0;
    proof { assert(es@.subrange(0, es@.len() as int) =~= es@); }
    while i < es.len()
        invariant
            i <= es@.len(),
            forall|k: int| 0 <= k < es@.len() ==> decreases_to!(parent => #[trigger] es@[k]),
            emits(start, diagnostics@, done),
            acc + exh_diags_list(es@, *env) == done + exh_diags_list(es@.subrange(i as int, es@.len() as int), *env),
        decreases es@.len() - i,
    {
        let ghost rest = es@.subrange(i as int, es@.len() as int);
        let ghost before = diagnostics@;
        proof {
            assert(rest[0] == es@[i as int]);
            assert(rest.drop_first() =~= es@.subrange(i + 1, es@.len() as int));
            assert(decreases_to!(parent => es@[i as int]));
        }
        check_expr_exhaustiveness(&es[i], env, table, diagnostics);
        proof {
            let x = exh_diags(es@[i as int], *env);
            lemma_emits_trans(start, before, diagnostics@, done, x);
            let r2 = exh_diags_list(es@.subrange(i + 1, es@.len() as int), *env);
            assert(done + x + r2 =~= done + (x + r2));
            done = done + x;
        }
        i = i + 1;
    }
    proof {
        assert(es@.subrange(i as int, es@.len() as int) =~= Seq::<Expr>::empty());
        assert(done + Seq::<ExDiag>::empty() =~= done);
    }
}


/// Every diagnostic of `xs` is a non-exhaustive match or an unreachable
/// pattern.
pub open spec fn exh_codes(xs: Seq<ExDiag>) -> bool {
    forall|k: int| 0 <= k < xs.len() ==> (#[trigger] xs[k]).code == "E0400"@ || xs[k].code == "E0401"@
}

/// The codes of a concatenation.
pub proof fn lemma_exh_codes_concat(a: Seq<ExDiag>, b: Seq<ExDiag>)
    requires
        exh_codes(a),
        exh_codes(b),
    ensures
        exh_codes(a + b),
{
    assert forall|k: int| 0 <= k < (a + b).len() implies (#[trigger] (a + b)[k]).code == "E0400"@ || (a + b)[k].code == "E0401"@ by {
        if k >= a.len() {
            assert((a + b)[k] == b[k - a.len()]);
        }
    }
}

/// The codes of the unreachable-pattern warnings.
pub proof fn lemma_unreachable_codes(arms: Seq<MatchArm>, i: int, seen: bool)
    ensures
        exh_codes(unreachable_from(arms, i, seen)),
    decreases arms.len() - i,
{
    if 0 <= i < arms.len() {
        lemma_unreachable_codes(arms, i + 1, seen || is_catch_all(arms[i].pattern));
        let here = if seen {
            seq![ExDiag { code: "E0401"@, message: "unreachable pattern"@, span: arms[i].pattern.span, warning: true,
                label: "this pattern is unreachable"@, help: "a previous pattern already matches all values"@ }]
        } else {
            Seq::<ExDiag>::empty()
        };
        lemma_exh_codes_concat(here, unreachable_from(arms, i + 1, seen || is_catch_all(arms[i].pattern)));
    }
}

/// The codes of the diagnostics of every match in an expression.
pub proof fn lemma_exh_diags_codes(e: Expr, env: TypeEnv)
    ensures
        exh_codes(exh_diags(e, env)),
    decreases e, 0nat,
{
    match e.kind {
        ExprKind::Match { scrutinee, arms } => {
            lemma_exh_diags_codes(*scrutinee, env);
            lemma_exh_arms_codes(arms@, env);
            lemma_unreachable_codes(arms@, 0, false);
            let cov = if has_catch_all(arms@) { Seq::<ExDiag>::empty() } else { coverage_diags(*scrutinee, arms@, env) };
            assert(exh_codes(cov));
            lemma_exh_codes_concat(unreachable_from(arms@, 0, false), cov);
            lemma_exh_codes_concat(exh_diags(*scrutinee, env), exh_diags_arms(arms@, env));
            lemma_exh_codes_concat(exh_diags(*scrutinee, env) + exh_diags_arms(arms@, env), match_diags(*scrutinee, arms@, env));
        },
        ExprKind::BinaryOp { lhs, rhs, .. } => {
            lemma_exh_diags_codes(*lhs, env);
            lemma_exh_diags_codes(*rhs, env);
            lemma_exh_codes_concat(exh_diags(*lhs, env), exh_diags(*rhs, env));
        },
        ExprKind::UnaryOp { operand, .. } => lemma_exh_diags_codes(*operand, env),
        ExprKind::FnCall { callee, args } => {
            lemma_exh_diags_codes(*callee, env);
            lemma_exh_list_codes(args@, env);
            lemma_exh_codes_concat(exh_diags(*callee, env), exh_diags_list(args@, env));
        },
        ExprKind::LetExpr { value, body, .. } => {
            lemma_exh_diags_codes(*value, env);
            lemma_exh_diags_codes(*body, env);
            lemma_exh_codes_concat(exh_diags(*value, env), exh_diags(*body, env));
        },
        ExprKind::IfElse { condition, then_branch, else_branch } => {
            lemma_exh_diags_codes(*condition, env);
            lemma_exh_diags_codes(*then_branch, env);
            lemma_exh_diags_codes(*else_branch, env);
            lemma_exh_codes_concat(exh_diags(*condition, env), exh_diags(*then_branch, env));
            lemma_exh_codes_concat(exh_diags(*condition, env) + exh_diags(*then_branch, env), exh_diags(*else_branch, env));
        },
        ExprKind::Block { exprs } => lemma_exh_list_codes(exprs@, env),
        ExprKind::VariantConstruct { args, .. } => lemma_exh_list_codes(args@, env),
        ExprKind::ListLiteral { elements } => lemma_exh_list_codes(elements@, env),
        _ => {},
    }
}

/// The codes of the diagnostics of a list of expressions.
pub proof fn lemma_exh_list_codes(es: Seq<Expr>, env: TypeEnv)
    ensures
        exh_codes(exh_diags_list(es, env)),
    decreases es, 1nat,
{
    if es.len() > 0 {
        lemma_exh_diags_codes(es[0], env);
        lemma_exh_list_codes(es.drop_first(), env);
        lemma_exh_codes_concat(exh_diags(es[0], env), exh_diags_list(es.drop_first(), env));
    }
}

/// The codes of the diagnostics of match arm bodies.
pub proof fn lemma_exh_arms_codes(arms: Seq<MatchArm>, env: TypeEnv)
    ensures
        exh_codes(exh_diags_arms(arms, env)),
    decreases arms, 1nat,
{
    if arms.len() > 0 {
        lemma_exh_diags_codes(arms[0].body, env);
        lemma_exh_arms_codes(arms.drop_first(), env);
        lemma_exh_codes_concat(exh_diags(arms[0].body, env), exh_diags_arms(arms.drop_first(), env));
    }
}

/// Every diagnostic of the exhaustiveness check of a program is a
/// non-exhaustive match (E0400) or an unreachable pattern (E0401).
pub proof fn lemma_program_exh_codes(ds: Seq<Decl>, env: TypeEnv)
    ensures
        exh_codes(program_exh_diags(ds, env)),
    decreases ds.len(),
{
    if ds.len() > 0 {
        match ds[0].kind {
            DeclKind::FnDef { body, .. } => lemma_exh_diags_codes(body, env),
            DeclKind::LetDef { value, .. } => lemma_exh_diags_codes(value, env),
            _ => {},
        }
        lemma_program_exh_codes(ds.drop_first(), env);
        lemma_exh_codes_concat(decl_exh_diags(ds[0], env), program_exh_diags(ds.drop_first(), env));
    }
}


/// A match with a catch-all arm is exhaustive: its only diagnostics are the
/// warnings for the arms after the first catch-all.
pub proof fn lemma_catch_all_exhaustive(scrutinee: Expr, arms: Seq<MatchArm>, env: TypeEnv)
    requires
        has_catch_all(arms),
    ensures
        match_diags(scrutinee, arms, env) == unreachable_from(arms, 0, false),
        forall|k: int| 0 <= k < match_diags(scrutinee, arms, env).len() ==> (#[trigger] match_diags(scrutinee, arms, env)[k]).warning,
{
    assert(unreachable_from(arms, 0, false) + Seq::<ExDiag>::empty() =~= unreachable_from(arms, 0, false));
    lemma_unreachable_warnings(arms, 0, false);
}

/// Unreachable-pattern diagnostics are warnings, one per arm after the
/// first catch-all.
pub proof fn lemma_unreachable_warnings(arms: Seq<MatchArm>, i: int, seen: bool)
    ensures
        forall|k: int| 0 <= k < unreachable_from(arms, i, seen).len() ==> (#[trigger] unreachable_from(arms, i, seen)[k]).warning,
        !seen && (forall|j: int| 0 <= j < arms.len() ==> !is_catch_all(#[trigger] arms[j].pattern)) ==> unreachable_from(arms, i, seen).len() == 0,
    decreases arms.len() - i,
{
    if 0 <= i < arms.len() {
        lemma_unreachable_warnings(arms, i + 1, seen || is_catch_all(arms[i].pattern));
        let here = if seen {
            seq![ExDiag { code: "E0401"@, message: "unreachable pattern"@, span: arms[i].pattern.span, warning: true,
                label: "this pattern is unreachable"@, help: "a previous pattern already matches all values"@ }]
        } else {
            Seq::<ExDiag>::empty()
        };
        let rest = unreachable_from(arms, i + 1, seen || is_catch_all(arms[i].pattern));
        assert(unreachable_from(arms, i, seen) == here + rest);
        assert forall|k: int| 0 <= k < (here + rest).len() implies (#[trigger] (here + rest)[k]).warning by {
            if k >= here.len() {
                assert((here + rest)[k] == rest[k - here.len()]);
            }
        }
    }
}

/// The scrutinee kind only depends on the owners of variant names.
proof fn lemma_kind_names(arms: Seq<MatchArm>, i: int, v1: Map<Seq<char>, VariantInfo>, v2: Map<Seq<char>, VariantInfo>)
    requires
        forall|k: Seq<char>| #[trigger] v1.contains_key(k) == v2.contains_key(k),
        forall|k: Seq<char>| v1.contains_key(k) ==> #[trigger] v1[k].adt_name@ == v2[k].adt_name@,
    ensures
        scrutinee_kind(arms, i, v1) == scrutinee_kind(arms, i, v2),
    decreases arms.len() - i,
{
    if 0 <= i < arms.len() {
        lemma_kind_names(arms, i + 1, v1, v2);
    }
}

/// The diagnostics of one match only depend on the names the check reads.
proof fn lemma_match_names(scrutinee: Expr, arms: Seq<MatchArm>, e1: TypeEnv, e2: TypeEnv)
    requires
        exh_names(e1) == exh_names(e2),
    ensures
        match_diags(scrutinee, arms, e1) == match_diags(scrutinee, arms, e2),
{
    let v1 = e1.variant_defs@;
    let v2 = e2.variant_defs@;
    assert forall|k: Seq<char>| #[trigger] v1.contains_key(k) == v2.contains_key(k) by {
        assert(exh_names(e1).owners.contains_key(k) == v1.contains_key(k));
        assert(exh_names(e2).owners.contains_key(k) == v2.contains_key(k));
    }
    assert forall|k: Seq<char>| v1.contains_key(k) implies #[trigger] v1[k].adt_name@ == v2[k].adt_name@ by {
        assert(exh_names(e1).owners[k] == v1[k].adt_name@);
        assert(exh_names(e2).owners[k] == v2[k].adt_name@);
    }
    lemma_kind_names(arms, 0, v1, v2);
    match scrutinee_kind(arms, 0, v1) {
        ScrutineeKind::Adt(n) => {
            assert(exh_names(e1).adts.contains_key(n) == e1.adt_defs@.contains_key(n));
            assert(exh_names(e2).adts.contains_key(n) == e2.adt_defs@.contains_key(n));
            if e1.adt_defs@.contains_key(n) {
                assert(exh_names(e1).adts[n] == variant_names(e1.adt_defs@[n]));
                assert(exh_names(e2).adts[n] == variant_names(e2.adt_defs@[n]));
            }
        },
        _ => {},
    }
}

/// The diagnostics of an expression only depend on the names the check reads.
proof fn lemma_exh_names(e: Expr, e1: TypeEnv, e2: TypeEnv)
    requires
        exh_names(e1) == exh_names(e2),
    ensures
        exh_diags(e, e1) == exh_diags(e, e2),
    decreases e, 0nat,
{
    match e.kind {
        ExprKind::Match { scrutinee, arms } => {
            lemma_exh_names(*scrutinee, e1, e2);
            lemma_exh_arms_names(arms@, e1, e2);
            lemma_match_names(*scrutinee, arms@, e1, e2);
        },
        ExprKind::BinaryOp { lhs, rhs, .. } => {
            lemma_exh_names(*lhs, e1, e2);
            lemma_exh_names(*rhs, e1, e2);
        },
        ExprKind::UnaryOp { operand, .. } => lemma_exh_names(*operand, e1, e2),
        ExprKind::FnCall { callee, args } => {
            lemma_exh_names(*callee, e1, e2);
            lemma_exh_list_names(args@, e1, e2);
        },
        ExprKind::LetExpr { value, body, .. } => {
            lemma_exh_names(*value, e1, e2);
            lemma_exh_names(*body, e1, e2);
        },
        ExprKind::IfElse { condition, then_branch, else_branch } => {
            lemma_exh_names(*condition, e1, e2);
            lemma_exh_names(*then_branch, e1, e2);
            lemma_exh_names(*else_branch, e1, e2);
        },
        ExprKind::Block { exprs } => lemma_exh_list_names(exprs@, e1, e2),
        ExprKind::VariantConstruct { args, .. } => lemma_exh_list_names(args@, e1, e2),
        ExprKind::ListLiteral { elements } => lemma_exh_list_names(elements@, e1, e2),
        _ => {},
    }
}

proof fn lemma_exh_list_names(es: Seq<Expr>, e1: TypeEnv, e2: TypeEnv)
    requires
        exh_names(e1) == exh_names(e2),
    ensures
        exh_diags_list(es, e1) == exh_diags_list(es, e2),
    decreases es, 1nat,
{
    if es.len() > 0 {
        lemma_exh_names(es[0], e1, e2);
        lemma_exh_list_names(es.drop_first(), e1, e2);
    }
}

proof fn lemma_exh_arms_names(arms: Seq<MatchArm>, e1: TypeEnv, e2: TypeEnv)
    requires
        exh_names(e1) == exh_names(e2),
    ensures
        exh_diags_arms(arms, e1) == exh_diags_arms(arms, e2),
    decreases arms, 1nat,
{
    if arms.len() > 0 {
        lemma_exh_names(arms[0].body, e1, e2);
        lemma_exh_arms_names(arms.drop_first(), e1, e2);
    }
}

/// The match diagnostics of a program depend on an environment only
/// through the ADT of each variant name and the variant names of each ADT.
pub proof fn lemma_program_exh_names(ds: Seq<Decl>, e1: TypeEnv, e2: TypeEnv)
    requires
        exh_names(e1) == exh_names(e2),
    ensures
        program_exh_diags(ds, e1) == program_exh_diags(ds, e2),
    decreases ds.len(),
{
    if ds.len() > 0 {
        match ds[0].kind {
            DeclKind::FnDef { body, .. } => lemma_exh_names(body, e1, e2),
            DeclKind::LetDef { value, .. } => lemma_exh_names(value, e1, e2),
            _ => {},
        }
        lemma_program_exh_names(ds.drop_first(), e1, e2);
    }
}

/// Some arm's pattern is the variant named `n` (with any fields).
pub open spec fn names_variant(arms: Seq<MatchArm>, n: Seq<char>) -> bool {
    exists|i: int| 0 <= i < arms.len() && (#[trigger] arms[i]).pattern.kind is Variant && arms[i].pattern.kind->Variant_name@ == n
}

/// The E0400 of a match on the scrutinee at `span` missing the patterns
/// listed in `list` (their names joined with `, `).
pub open spec fn missing_error(list: Seq<char>, span: Span) -> ExDiag {
    ExDiag {
        code: "E0400"@,
        message: "non-exhaustive match: missing pattern(s): "@ + list,
        span,
        warning: false,
        label: "match is not exhaustive"@,
        help: "add arm(s) for: "@ + list,
    }
}

/// What a match over a two-constructor builtin type (constructors shown as
/// `a` and `b`, named `na` and `nb` in patterns) without a catch-all arm
/// reports: nothing when arms name both constructors, else one E0400
/// listing each constructor that no arm names, `a` before `b`.
pub open spec fn two_ctor_report(arms: Seq<MatchArm>, na: Seq<char>, a: Seq<char>, nb: Seq<char>, b: Seq<char>,
    span: Span) -> Seq<ExDiag> {
    if names_variant(arms, na) && names_variant(arms, nb) {
        seq![]
    } else if names_variant(arms, na) {
        seq![missing_error(b, span)]
    } else if names_variant(arms, nb) {
        seq![missing_error(a, span)]
    } else {
        seq![missing_error(a + ", "@ + b, span)]
    }
}

/// Some arm's pattern is the boolean literal `b`.
pub open spec fn names_bool(arms: Seq<MatchArm>, b: bool) -> bool {
    exists|i: int| 0 <= i < arms.len() && (#[trigger] arms[i]).pattern.kind is Literal
        && arms[i].pattern.kind->Literal_value == LitValue::Bool(b)
}

/// A match over a `Bool` without a catch-all arm reports exactly the values
/// no arm names: nothing when arms cover `true` and `false`, else one E0400
/// listing `true` when no arm is `true` and `false` when no arm is `false`,
/// in that order; and no other diagnostic.
pub proof fn lemma_bool_coverage(scrutinee: Expr, arms: Seq<MatchArm>, env: TypeEnv)
    requires
        !has_catch_all(arms),
        scrutinee_kind(arms, 0, env.variant_defs@) is Bool,
    ensures
        match_diags(scrutinee, arms, env) == if names_bool(arms, true) && names_bool(arms, false) {
            seq![]
        } else if names_bool(arms, true) {
            seq![missing_error("false"@, scrutinee.span)]
        } else if names_bool(arms, false) {
            seq![missing_error("true"@, scrutinee.span)]
        } else {
            seq![missing_error("true"@ + ", "@ + "false"@, scrutinee.span)]
        },
{
    lemma_unreachable_warnings(arms, 0, false);
    assert(unreachable_from(arms, 0, false) =~= Seq::<ExDiag>::empty());
    assert forall|b: bool| #[trigger] has_bool(arms, b) == names_bool(arms, b) by {
        if has_bool(arms, b) {
            let i = choose|i: int| 0 <= i < arms.len() && #[trigger] is_bool_lit(arms[i].pattern, b);
            assert(arms[i].pattern.kind is Literal && arms[i].pattern.kind->Literal_value == LitValue::Bool(b));
        }
        if names_bool(arms, b) {
            let i = choose|i: int| 0 <= i < arms.len() && (#[trigger] arms[i]).pattern.kind is Literal
                && arms[i].pattern.kind->Literal_value == LitValue::Bool(b);
            assert(is_bool_lit(arms[i].pattern, b));
        }
    }
    reveal_with_fuel(join_names, 3);
    let x = seq!["true"@, "false"@];
    assert(x.drop_first() =~= seq!["false"@]);
    assert(seq!["true"@] + seq!["false"@] =~= x);
    assert(Seq::<Seq<char>>::empty() + seq!["false"@] =~= seq!["false"@]);
    assert(seq!["true"@] + Seq::<Seq<char>>::empty() =~= seq!["true"@]);
    assert(Seq::<Seq<char>>::empty() + Seq::<Seq<char>>::empty() =~= Seq::<Seq<char>>::empty());
    assert(forall|z: Seq<ExDiag>| Seq::<ExDiag>::empty() + z =~= z);
}

/// A match without a catch-all arm whose patterns show a `Result` reports
/// exactly the constructors no arm names: nothing when arms cover both `Ok`
/// and `Err`, else one E0400 at the scrutinee listing `Ok(_)` when no arm is
/// an `Ok` pattern and `Err(_)` when no arm is an `Err` pattern, in that
/// order; and likewise `Some(_)` and `None` for an `Option`. No other
/// diagnostic is reported for such a match.
pub proof fn lemma_builtin_variants_coverage(scrutinee: Expr, arms: Seq<MatchArm>, env: TypeEnv)
    requires
        !has_catch_all(arms),
    ensures
        scrutinee_kind(arms, 0, env.variant_defs@) is Result ==> match_diags(scrutinee, arms, env)
            == two_ctor_report(arms, "Ok"@, "Ok(_)"@, "Err"@, "Err(_)"@, scrutinee.span),
        scrutinee_kind(arms, 0, env.variant_defs@) is Option ==> match_diags(scrutinee, arms, env)
            == two_ctor_report(arms, "Some"@, "Some(_)"@, "None"@, "None"@, scrutinee.span),
{
    lemma_unreachable_warnings(arms, 0, false);
    assert(unreachable_from(arms, 0, false) =~= Seq::<ExDiag>::empty());
    assert(forall|n: Seq<char>| #[trigger] has_variant(arms, n) == names_variant(arms, n)) by {
        assert forall|n: Seq<char>| #[trigger] has_variant(arms, n) == names_variant(arms, n) by {
            if has_variant(arms, n) {
                let i = choose|i: int| 0 <= i < arms.len() && #[trigger] is_variant_named(arms[i].pattern, n);
                assert(arms[i].pattern.kind matches PatternKind::Variant { name, .. } && name@ == n);
            }
            if names_variant(arms, n) {
                let i = choose|i: int| 0 <= i < arms.len() && (#[trigger] arms[i]).pattern.kind is Variant && arms[i].pattern.kind->Variant_name@ == n;
                assert(is_variant_named(arms[i].pattern, n));
            }
        }
    }
    reveal_with_fuel(join_names, 3);
    let x = seq!["Ok(_)"@, "Err(_)"@];
    assert(x.drop_first() =~= seq!["Err(_)"@]);
    assert(seq!["Ok(_)"@] + seq!["Err(_)"@] =~= x);
    assert(Seq::<Seq<char>>::empty() + seq!["Err(_)"@] =~= seq!["Err(_)"@]);
    assert(seq!["Ok(_)"@] + Seq::<Seq<char>>::empty() =~= seq!["Ok(_)"@]);
    let y = seq!["Some(_)"@, "None"@];
    assert(y.drop_first() =~= seq!["None"@]);
    assert(seq!["Some(_)"@] + seq!["None"@] =~= y);
    assert(Seq::<Seq<char>>::empty() + seq!["None"@] =~= seq!["None"@]);
    assert(seq!["Some(_)"@] + Seq::<Seq<char>>::empty() =~= seq!["Some(_)"@]);
    assert(Seq::<Seq<char>>::empty() + Seq::<Seq<char>>::empty() =~= Seq::<Seq<char>>::empty());
    assert(Seq::<ExDiag>::empty() + Seq::<ExDiag>::empty() =~= Seq::<ExDiag>::empty());
    assert(forall|z: Seq<ExDiag>| Seq::<ExDiag>::empty() + z =~= z);
}

/// A match without a catch-all arm over a user type lists as missing
/// exactly the type's variants that no arm names, in the type's order: each
/// variant no arm names is in the list, every listed name is an unnamed
/// variant of the type, and an empty list reports nothing.
pub proof fn lemma_adt_coverage_lists_unnamed(names: Seq<Seq<char>>, arms: Seq<MatchArm>, v: Seq<char>)
    ensures
        missing_names(names, arms).contains(v) <==> names.contains(v) && !names_variant(arms, v),
    decreases names.len(),
{
    if names.len() > 0 {
        lemma_adt_coverage_lists_unnamed(names.drop_first(), arms, v);
        let rest = missing_names(names.drop_first(), arms);
        assert(has_variant(arms, names[0]) == names_variant(arms, names[0])) by {
            if has_variant(arms, names[0]) {
                let i = choose|i: int| 0 <= i < arms.len() && #[trigger] is_variant_named(arms[i].pattern, names[0]);
                assert(arms[i].pattern.kind matches PatternKind::Variant { name, .. } && name@ == names[0]);
            }
            if names_variant(arms, names[0]) {
                let i = choose|i: int| 0 <= i < arms.len() && (#[trigger] arms[i]).pattern.kind is Variant && arms[i].pattern.kind->Variant_name@ == names[0];
                assert(is_variant_named(arms[i].pattern, names[0]));
            }
        }
        assert(names =~= seq![names[0]] + names.drop_first());
        if !has_variant(arms, names[0]) {
            assert((seq![names[0]] + rest).contains(v) <==> (v == names[0] || rest.contains(v))) by {
                if (seq![names[0]] + rest).contains(v) {
                    let k = choose|k: int| 0 <= k < (seq![names[0]] + rest).len() && (seq![names[0]] + rest)[k] == v;
                    if k > 0 { assert(rest[k - 1] == v); }
                }
                if rest.contains(v) {
                    let k = choose|k: int| 0 <= k < rest.len() && rest[k] == v;
                    assert((seq![names[0]] + rest)[k + 1] == v);
                }
                if v == names[0] {
                    assert((seq![names[0]] + rest)[0] == v);
                }
            }
        }
        assert(names.contains(v) <==> (v == names[0] || names.drop_first().contains(v))) by {
            if names.contains(v) {
                let k = choose|k: int| 0 <= k < names.len() && names[k] == v;
                if k > 0 { assert(names.drop_first()[k - 1] == v); }
            }
            if names.drop_first().contains(v) {
                let k = choose|k: int| 0 <= k < names.drop_first().len() && names.drop_first()[k] == v;
                assert(names[k + 1] == v);
            }
            if v == names[0] {
                assert(names[0] == v);
            }
        }
    }
}

/// Whose patterns are the ones a match over a `Result` has: every arm's
/// pattern is a name, `_`, or an `Ok` or `Err` pattern, and some arm from
/// `i` on is an `Ok` or `Err` pattern; the check then takes the scrutinee
/// to be a `Result` (and likewise for `Some` and `None` and an `Option`).
pub proof fn lemma_builtin_variant_patterns_kind(arms: Seq<MatchArm>, i: int, vs: Map<Seq<char>, VariantInfo>)
    requires
        0 <= i,
        forall|j: int| 0 <= j < arms.len() ==> !((#[trigger] arms[j]).pattern.kind is Literal),
        exists|j: int| i <= j < arms.len() && (#[trigger] arms[j]).pattern.kind is Variant,
    ensures
        (forall|j: int| 0 <= j < arms.len() && (#[trigger] arms[j]).pattern.kind is Variant
            ==> arms[j].pattern.kind->Variant_name@ == "Ok"@ || arms[j].pattern.kind->Variant_name@ == "Err"@)
            ==> scrutinee_kind(arms, i, vs) is Result,
        (forall|j: int| 0 <= j < arms.len() && (#[trigger] arms[j]).pattern.kind is Variant
            ==> arms[j].pattern.kind->Variant_name@ == "Some"@ || arms[j].pattern.kind->Variant_name@ == "None"@)
            ==> scrutinee_kind(arms, i, vs) is Option,
    decreases arms.len() - i,
{
    reveal_strlit("Ok");
    reveal_strlit("Err");
    reveal_strlit("Some");
    reveal_strlit("None");
    assert(!(arms[i].pattern.kind is Literal));
    assert("Ok"@.len() == 2 && "Err"@.len() == 3 && "Some"@.len() == 4 && "None"@.len() == 4);
    assert("Some"@[0] != "None"@[0]);
    if arms[i].pattern.kind is Variant {
        let n = arms[i].pattern.kind->Variant_name@;
        assert(arms[i].pattern.kind is Variant);
    } else {
        let j = choose|j: int| i <= j < arms.len() && (#[trigger] arms[j]).pattern.kind is Variant;
        assert(j > i);
        lemma_builtin_variant_patterns_kind(arms, i + 1, vs);
    }
}

/// The diagnostics of the match `s` (its unreachable arms and, without a
/// catch-all, its missing patterns).
pub open spec fn diags_of_match(s: Expr, env: TypeEnv) -> Seq<ExDiag> {
    match_diags(*s.kind->Match_scrutinee, s.kind->Match_arms@, env)
}

/// Every match anywhere in `e` (in a call, an operand, a `let`'s value or
/// body, an `if`'s condition or either branch, a scrutinee or an arm body,
/// a block, a variant's arguments or a list) is checked: each of its
/// diagnostics is among those of `e`.
pub proof fn lemma_every_match_checked(e: Expr, s: Expr, env: TypeEnv, x: ExDiag)
    requires
        occurs(s, e),
        s.kind is Match,
        diags_of_match(s, env).contains(x),
    ensures
        exh_diags(e, env).contains(x),
    decreases e, 0nat,
{
    if s == e {
        let sc = *e.kind->Match_scrutinee;
        let arms = e.kind->Match_arms@;
        lemma_contains_concat(exh_diags(sc, env) + exh_diags_arms(arms, env), match_diags(sc, arms, env), x);
        return;
    }
    match e.kind {
        ExprKind::Match { scrutinee, arms } => {
            let a = exh_diags(*scrutinee, env);
            let b = exh_diags_arms(arms@, env);
            if occurs(s, *scrutinee) { lemma_every_match_checked(*scrutinee, s, env, x); }
            else { lemma_match_checked_in_arms(arms@, s, env, x); }
            lemma_contains_concat(a, b, x);
            lemma_contains_concat(a + b, match_diags(*scrutinee, arms@, env), x);
        },
        ExprKind::BinaryOp { lhs, rhs, .. } => {
            if occurs(s, *lhs) { lemma_every_match_checked(*lhs, s, env, x); }
            else { lemma_every_match_checked(*rhs, s, env, x); }
            lemma_contains_concat(exh_diags(*lhs, env), exh_diags(*rhs, env), x);
        },
        ExprKind::UnaryOp { operand, .. } => lemma_every_match_checked(*operand, s, env, x),
        ExprKind::FnCall { callee, args } => {
            if occurs(s, *callee) { lemma_every_match_checked(*callee, s, env, x); }
            else { lemma_match_checked_in_list(args@, s, env, x); }
            lemma_contains_concat(exh_diags(*callee, env), exh_diags_list(args@, env), x);
        },
        ExprKind::LetExpr { value, body, .. } => {
            if occurs(s, *value) { lemma_every_match_checked(*value, s, env, x); }
            else { lemma_every_match_checked(*body, s, env, x); }
            lemma_contains_concat(exh_diags(*value, env), exh_diags(*body, env), x);
        },
        ExprKind::IfElse { condition, then_branch, else_branch } => {
            let a = exh_diags(*condition, env);
            let b = exh_diags(*then_branch, env);
            if occurs(s, *condition) { lemma_every_match_checked(*condition, s, env, x); }
            else if occurs(s, *then_branch) { lemma_every_match_checked(*then_branch, s, env, x); }
            else { lemma_every_match_checked(*else_branch, s, env, x); }
            lemma_contains_concat(a, b, x);
            lemma_contains_concat(a + b, exh_diags(*else_branch, env), x);
        },
        ExprKind::Block { exprs } => lemma_match_checked_in_list(exprs@, s, env, x),
        ExprKind::VariantConstruct { args, .. } => lemma_match_checked_in_list(args@, s, env, x),
        ExprKind::ListLiteral { elements } => lemma_match_checked_in_list(elements@, s, env, x),
        _ => {},
    }
}

/// Every match in one of `es` is checked.
pub proof fn lemma_match_checked_in_list(es: Seq<Expr>, s: Expr, env: TypeEnv, x: ExDiag)
    requires
        occurs_in_list(s, es),
        s.kind is Match,
        diags_of_match(s, env).contains(x),
    ensures
        exh_diags_list(es, env).contains(x),
    decreases es, 1nat,
{
    if occurs(s, es[0]) {
        lemma_every_match_checked(es[0], s, env, x);
    } else {
        lemma_match_checked_in_list(es.drop_first(), s, env, x);
    }
    lemma_contains_concat(exh_diags(es[0], env), exh_diags_list(es.drop_first(), env), x);
}

/// Every match in an arm body is checked.
pub proof fn lemma_match_checked_in_arms(arms: Seq<MatchArm>, s: Expr, env: TypeEnv, x: ExDiag)
    requires
        occurs_in_arms(s, arms),
        s.kind is Match,
        diags_of_match(s, env).contains(x),
    ensures
        exh_diags_arms(arms, env).contains(x),
    decreases arms, 1nat,
{
    if occurs(s, arms[0].body) {
        lemma_every_match_checked(arms[0].body, s, env, x);
    } else {
        lemma_match_checked_in_arms(arms.drop_first(), s, env, x);
    }
    lemma_contains_concat(exh_diags(arms[0].body, env), exh_diags_arms(arms.drop_first(), env), x);
}

/// What the exhaustiveness check reports: for every function body and every
/// top-level value of the program, and every match anywhere in it, each of
/// that match's diagnostics is reported by the check.
pub proof fn lemma_every_match_in_program_reported(ds: Seq<Decl>, env: TypeEnv, r: Seq<Diagnostic>, i: int, s: Expr,
    x: ExDiag)
    requires
        emits(seq![], r, program_exh_diags(ds, env)),
        0 <= i < ds.len(),
        ds[i].kind is FnDef && occurs(s, ds[i].kind->FnDef_body) || ds[i].kind is LetDef && occurs(s, ds[i].kind->LetDef_value),
        s.kind is Match,
        diags_of_match(s, env).contains(x),
    ensures
        exists|k: int| 0 <= k < r.len() && is_exdiag(#[trigger] r[k], x),
    decreases ds.len(),
{
    lemma_match_in_program(ds, env, i, s, x);
    let xs = program_exh_diags(ds, env);
    let k = choose|k: int| 0 <= k < xs.len() && xs[k] == x;
    assert(is_exdiag(r[0 + k], xs[k]));
    assert(r[0 + k] == r[k]);
}

/// The diagnostics of every match in a declaration are among the program's.
proof fn lemma_match_in_program(ds: Seq<Decl>, env: TypeEnv, i: int, s: Expr, x: ExDiag)
    requires
        0 <= i < ds.len(),
        ds[i].kind is FnDef && occurs(s, ds[i].kind->FnDef_body) || ds[i].kind is LetDef && occurs(s, ds[i].kind->LetDef_value),
        s.kind is Match,
        diags_of_match(s, env).contains(x),
    ensures
        program_exh_diags(ds, env).contains(x),
    decreases ds.len(),
{
    if i > 0 {
        lemma_match_in_program(ds.drop_first(), env, i - 1, s, x);
    } else {
        match ds[0].kind {
            DeclKind::FnDef { body, .. } => lemma_every_match_checked(body, s, env, x),
            DeclKind::LetDef { value, .. } => lemma_every_match_checked(value, s, env, x),
            _ => {},
        }
    }
    lemma_contains_concat(decl_exh_diags(ds[0], env), program_exh_diags(ds.drop_first(), env), x);
}

/// The warning for an unreachable arm whose pattern is at `span`.
pub open spec fn unreachable_warning(span: Span) -> ExDiag {
    ExDiag { code: "E0401"@, message: "unreachable pattern"@, span, warning: true,
        label: "this pattern is unreachable"@, help: "a previous pattern already matches all values"@ }
}

/// Every arm after a catch-all arm (`_` or a name) is reported unreachable,
/// with an E0401 warning at its pattern.
pub proof fn lemma_arms_after_catch_all_unreachable(scrutinee: Expr, arms: Seq<MatchArm>, env: TypeEnv, j: int, k: int)
    requires
        0 <= j < k < arms.len(),
        is_catch_all(arms[j].pattern),
    ensures
        match_diags(scrutinee, arms, env).contains(unreachable_warning(arms[k].pattern.span)),
{
    lemma_unreachable_from_contains(arms, 0, false, j, k);
    lemma_contains_concat(unreachable_from(arms, 0, false),
        if has_catch_all(arms) { seq![] } else { coverage_diags(scrutinee, arms, env) }, unreachable_warning(arms[k].pattern.span));
}

/// The warnings from arm `i` on include arm `k`'s when a catch-all comes
/// before it (at `j`, from `i` on, or already `seen`).
proof fn lemma_unreachable_from_contains(arms: Seq<MatchArm>, i: int, seen: bool, j: int, k: int)
    requires
        0 <= i <= k < arms.len(),
        j < k,
        seen || (i <= j && is_catch_all(arms[j].pattern)),
    ensures
        unreachable_from(arms, i, seen).contains(unreachable_warning(arms[k].pattern.span)),
    decreases arms.len() - i,
{
    let w = unreachable_warning(arms[k].pattern.span);
    let here = if seen { seq![unreachable_warning(arms[i].pattern.span)] } else { Seq::<ExDiag>::empty() };
    let rest = unreachable_from(arms, i + 1, seen || is_catch_all(arms[i].pattern));
    assert(unreachable_from(arms, i, seen) == here + rest);
    if i == k {
        assert(seen);
        assert(here[0] == w);
    } else {
        lemma_unreachable_from_contains(arms, i + 1, seen || is_catch_all(arms[i].pattern), j, k);
    }
    lemma_contains_concat(here, rest, w);
}

/// A match over a user type without a catch-all arm reports nothing exactly
/// when its arms name every variant of the type; otherwise it reports one
/// E0400 at the scrutinee, listing the variants that no arm names (in the
/// type's order, see [`lemma_adt_coverage_lists_unnamed`]).
pub proof fn lemma_adt_coverage(scrutinee: Expr, arms: Seq<MatchArm>, env: TypeEnv, n: Seq<char>)
    requires
        !has_catch_all(arms),
        scrutinee_kind(arms, 0, env.variant_defs@) == ScrutineeKind::Adt(n),
        env.adt_defs@.contains_key(n),
    ensures
        ({
            let names = variant_names(env.adt_defs@[n]);
            &&& match_diags(scrutinee, arms, env).len() == 0
                <==> forall|k: int| 0 <= k < names.len() ==> names_variant(arms, #[trigger] names[k])
            &&& match_diags(scrutinee, arms, env).len() > 0 ==> match_diags(scrutinee, arms, env)
                == seq![missing_error(join_names(missing_names(names, arms)), scrutinee.span)]
        }),
{
    let names = variant_names(env.adt_defs@[n]);
    let m = missing_names(names, arms);
    lemma_unreachable_warnings(arms, 0, false);
    assert(unreachable_from(arms, 0, false) =~= Seq::<ExDiag>::empty());
    assert(forall|z: Seq<ExDiag>| Seq::<ExDiag>::empty() + z =~= z);
    if m.len() > 0 {
        lemma_adt_coverage_lists_unnamed(names, arms, m[0]);
        assert(m.contains(m[0]));
        let k = choose|k: int| 0 <= k < names.len() && names[k] == m[0];
        assert(!names_variant(arms, names[k]));
    } else {
        assert forall|k: int| 0 <= k < names.len() implies names_variant(arms, #[trigger] names[k]) by {
            lemma_adt_coverage_lists_unnamed(names, arms, names[k]);
            assert(names.contains(names[k]));
        }
    }
}

} // verus!
