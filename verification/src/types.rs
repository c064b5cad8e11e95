//! Core type representations: monomorphic types, type variables and
//! polymorphic type schemes.
use vstd::prelude::*;
use crate::text::{owned, cat, append, usize_to_string, decimal};

verus! {

/// Unique identifier for a type variable.
#[derive(Debug, Clone, Copy, PartialEq, Eq, Structural)]
pub struct TypeVarId(pub u32);

/// A monomorphic type in the LM type system.
#[derive(Debug, PartialEq, Eq)]
pub enum Type {
    /// Integer type.
    Int,
    /// Floating-point type.
    Float,
    /// Boolean type.
    Bool,
    /// String type.
    String,
    /// Unit type (void-like).
    Unit,
    /// A unification variable, to be resolved during inference.
    Var(TypeVarId),
    /// Function type: parameter types -> return type.
    Fun(Vec<Type>, Box<Type>),
    /// A user-defined algebraic data type with type arguments.
    ADT(std::string::String, Vec<Type>),
    /// `Option<T>`.
    Option(Box<Type>),
    /// `Result<T, E>`.
    Result(Box<Type>, Box<Type>),
    /// `List<T>`.
    List(Box<Type>),
}

/// The mathematical value of a [`Type`]: the same tree, with sequences in
/// place of vectors and character sequences in place of strings.
pub enum TyV {
    Int,
    Float,
    Bool,
    String,
    Unit,
    Var(u32),
    Fun(Seq<TyV>, Box<TyV>),
    ADT(Seq<char>, Seq<TyV>),
    Option(Box<TyV>),
    Result(Box<TyV>, Box<TyV>),
    List(Box<TyV>),
}

/// The value of a type.
pub open spec fn tview(t: Type) -> TyV
    decreases t, 0nat,
{
    match t {
        Type::Int => TyV::Int,
        Type::Float => TyV::Float,
        Type::Bool => TyV::Bool,
        Type::String => TyV::String,
        Type::Unit => TyV::Unit,
        Type::Var(id) => TyV::Var(id.0),
        Type::Fun(ps, r) => TyV::Fun(tview_list(ps@), Box::new(tview(*r))),
        Type::ADT(n, args) => TyV::ADT(n@, tview_list(args@)),
        Type::Option(i) => TyV::Option(Box::new(tview(*i))),
        Type::Result(a, b) => TyV::Result(Box::new(tview(*a)), Box::new(tview(*b))),
        Type::List(i) => TyV::List(Box::new(tview(*i))),
    }
}

/// The values of a list of types.
pub open spec fn tview_list(ts: Seq<Type>) -> Seq<TyV>
    decreases ts, 1nat,
{
    if ts.len() == 0 {
        seq![]
    } else {
        seq![tview(ts[0])] + tview_list(ts.drop_first())
    }
}

impl View for Type {
    type V = TyV;

    open spec fn view(&self) -> TyV {
        tview(*self)
    }
}

/// Every occurrence of a type variable in `t`, left to right.
pub open spec fn occ(t: TyV) -> Seq<u32>
    decreases t, 0nat,
{
    match t {
        TyV::Var(id) => seq![id],
        TyV::Fun(ps, r) => occ_list(ps) + occ(*r),
        TyV::ADT(_, args) => occ_list(args),
        TyV::Option(i) => occ(*i),
        TyV::List(i) => occ(*i),
        TyV::Result(a, b) => occ(*a) + occ(*b),
        _ => seq![],
    }
}

/// Every occurrence of a type variable in the types `ts`, left to right.
pub open spec fn occ_list(ts: Seq<TyV>) -> Seq<u32>
    decreases ts, 1nat,
{
    if ts.len() == 0 {
        seq![]
    } else {
        occ(ts[0]) + occ_list(ts.drop_first())
    }
}


/// The values of a list of types, element by element.
pub proof fn lemma_tview_list(ts: Seq<Type>)
    ensures
        tview_list(ts).len() == ts.len(),
        forall|k: int| 0 <= k < ts.len() ==> #[trigger] tview_list(ts)[k] == tview(ts[k]),
    decreases ts.len(),
{
    if ts.len() > 0 {
        lemma_tview_list(ts.drop_first());
        assert forall|k: int| 0 <= k < ts.len() implies #[trigger] tview_list(ts)[k] == tview(ts[k]) by {
            if k > 0 {
                assert(ts.drop_first()[k - 1] == ts[k]);
            }
        }
    }
}

/// The value of the list `ts.push(t)`.
pub proof fn lemma_tview_list_push(ts: Seq<Type>, t: Type)
    ensures
        tview_list(ts.push(t)) == tview_list(ts).push(tview(t)),
{
    lemma_tview_list(ts);
    lemma_tview_list(ts.push(t));
    assert(tview_list(ts.push(t)) =~= tview_list(ts).push(tview(t)));
}

/// The user-facing rendering of a type.
pub open spec fn display(t: TyV) -> Seq<char>
    decreases t, 0nat,
{
    match t {
        TyV::Int => "Int"@,
        TyV::Float => "Float"@,
        TyV::Bool => "Bool"@,
        TyV::String => "String"@,
        TyV::Unit => "Unit"@,
        TyV::Var(id) => "t"@ + decimal(id as nat),
        TyV::Fun(ps, r) => "("@ + display_join(ps) + ") -> "@ + display(*r),
        TyV::ADT(n, args) => if args.len() == 0 { n } else { n + "<"@ + display_join(args) + ">"@ },
        TyV::Option(i) => "Option<"@ + display(*i) + ">"@,
        TyV::Result(a, b) => "Result<"@ + display(*a) + ", "@ + display(*b) + ">"@,
        TyV::List(i) => "List<"@ + display(*i) + ">"@,
    }
}

/// The renderings of `ts`, separated by `", "`.
pub open spec fn display_join(ts: Seq<TyV>) -> Seq<char>
    decreases ts, 1nat,
{
    if ts.len() == 0 {
        seq![]
    } else if ts.len() == 1 {
        display(ts[0])
    } else {
        display_join(ts.drop_last()) + ", "@ + display(ts.last())
    }
}

/// The sequence `acc` extended with each element of `xs` not yet in it, in order.
pub open spec fn add_new(acc: Seq<u32>, xs: Seq<u32>) -> Seq<u32>
    decreases xs.len(),
{
    if xs.len() == 0 {
        acc
    } else {
        add_new(if acc.contains(xs[0]) { acc } else { acc.push(xs[0]) }, xs.drop_first())
    }
}

/// Adding the elements of `a + b` is adding those of `a`, then those of `b`.
pub proof fn lemma_add_new_concat(acc: Seq<u32>, a: Seq<u32>, b: Seq<u32>)
    ensures
        add_new(acc, a + b) == add_new(add_new(acc, a), b),
    decreases a.len(),
{
    if a.len() == 0 {
        assert(a + b =~= b);
    } else {
        assert((a + b).drop_first() =~= a.drop_first() + b);
        let acc2 = if acc.contains(a[0]) { acc } else { acc.push(a[0]) };
        lemma_add_new_concat(acc2, a.drop_first(), b);
    }
}

/// The identifiers of a sequence of type variables.
pub open spec fn ids(vs: Seq<TypeVarId>) -> Seq<u32> {
    vs.map_values(|v: TypeVarId| v.0)
}

/// The replacement that `subst` gives for variable `id`: the first entry
/// for `id`, if any.
pub open spec fn subst_lookup(subst: Seq<(u32, TyV)>, id: u32) -> Option<TyV>
    decreases subst.len(),
{
    if subst.len() == 0 {
        None
    } else if subst[0].0 == id {
        Some(subst[0].1)
    } else {
        subst_lookup(subst.drop_first(), id)
    }
}

/// `t` with each variable that `subst` maps replaced by its replacement.
pub open spec fn subst_ty(t: TyV, subst: Seq<(u32, TyV)>) -> TyV
    decreases t, 0nat,
{
    match t {
        TyV::Var(id) => match subst_lookup(subst, id) {
            Some(r) => r,
            None => t,
        },
        TyV::Fun(ps, r) => TyV::Fun(subst_list(ps, subst), Box::new(subst_ty(*r, subst))),
        TyV::ADT(n, args) => TyV::ADT(n, subst_list(args, subst)),
        TyV::Option(i) => TyV::Option(Box::new(subst_ty(*i, subst))),
        TyV::Result(a, b) => TyV::Result(Box::new(subst_ty(*a, subst)), Box::new(subst_ty(*b, subst))),
        TyV::List(i) => TyV::List(Box::new(subst_ty(*i, subst))),
        _ => t,
    }
}

/// `subst_ty` applied to each element of `ts`.
pub open spec fn subst_list(ts: Seq<TyV>, subst: Seq<(u32, TyV)>) -> Seq<TyV>
    decreases ts, 1nat,
{
    if ts.len() == 0 {
        seq![]
    } else {
        seq![subst_ty(ts[0], subst)] + subst_list(ts.drop_first(), subst)
    }
}

/// The value of a substitution given as pairs of variables and types.
pub open spec fn subst_view(subst: Seq<(TypeVarId, Type)>) -> Seq<(u32, TyV)> {
    subst.map_values(|p: (TypeVarId, Type)| (p.0.0, tview(p.1)))
}

impl Type {
    /// Pretty-print the type for user-facing error messages.
    pub fn display(&self) -> (r: std::string::String)
        ensures
            r@ == display(self@),
        decreases self,
    {
        match self {
            Type::Int => owned("Int"),
            Type::Float => owned("Float"),
            Type::Bool => owned("Bool"),
            Type::String => owned("String"),
            Type::Unit => owned("Unit"),
            Type::Var(id) => {
                let n = usize_to_string(id.0 as usize);
                cat(owned("t"), n.as_str())
            }
            Type::Fun(params, ret) => {
                let mut s = owned("(");
                let j = display_list(params);
                append(&mut s, j.as_str());
                append(&mut s, ") -> ");
                let r = ret.display();
                append(&mut s, r.as_str());
                s
            }
            Type::ADT(name, args) => {
                proof { lemma_tview_list(args@); }
                if args.len() == 0 {
                    name.clone()
                } else {
                    let mut s = name.clone();
                    append(&mut s, "<");
                    let j = display_list(args);
                    append(&mut s, j.as_str());
                    append(&mut s, ">");
                    s
                }
            }
            Type::Option(inner) => {
                let mut s = owned("Option<");
                let r = inner.display();
                append(&mut s, r.as_str());
                append(&mut s, ">");
                s
            }
            Type::Result(ok, err) => {
                let mut s = owned("Result<");
                let a = ok.display();
                append(&mut s, a.as_str());
                append(&mut s, ", ");
                let b = err.display();
                append(&mut s, b.as_str());
                append(&mut s, ">");
                s
            }
            Type::List(inner) => {
                let mut s = owned("List<");
                let r = inner.display();
                append(&mut s, r.as_str());
                append(&mut s, ">");
                s
            }
        }
    }

    /// Collect all free type variable IDs in this type, each once, in order
    /// of first occurrence.
    pub fn free_vars(&self) -> (r: Vec<TypeVarId>)
        ensures
            ids(r@) == add_new(seq![], occ(self@)),
    {
        let mut vars: Vec<TypeVarId> = Vec::new();
        proof { assert(ids(vars@) =~= Seq::<u32>::empty()); }
        self.collect_free_vars(&mut vars);
        vars
    }

    /// Appends to `vars` the variables of this type not already in it.
    pub fn collect_free_vars(&self, vars: &mut Vec<TypeVarId>)
        ensures
            ids(final(vars)@) == add_new(ids(old(vars)@), occ(self@)),
        decreases self,
    {
        match self {
            Type::Var(id) => {
                let ghost before = ids(vars@);
                let mut found = false;
                let mut i: usize = 0;
                while i < vars.len()
                    invariant
                        i <= vars@.len(),
                        ids(vars@) == before,
                        found == exists|k: int| 0 <= k < i && vars@[k].0 == id.0,
                    decreases vars@.len() - i,
                {
                    if vars[i].0 == id.0 {
                        found = true;
                    }
                    i = i + 1;
                }
                proof {
                    assert(found == before.contains(id.0)) by {
                        if found {
                            let k = choose|k: int| 0 <= k < i && vars@[k].0 == id.0;
                            assert(before[k] == id.0);
                        }
                        if before.contains(id.0) {
                            let k = choose|k: int| 0 <= k < before.len() && before[k] == id.0;
                            assert(vars@[k].0 == id.0);
                        }
                    }
                }
                if !found {
                    vars.push(*id);
                    proof {
                        assert(ids(vars@) =~= before.push(id.0));
                    }
                }
                proof {
                    let xs = seq![id.0];
                    assert(occ(self@) == xs);
                    assert(xs.drop_first() =~= Seq::<u32>::empty());
                    assert(xs[0] == id.0);
                    let acc2 = if before.contains(xs[0]) { before } else { before.push(xs[0]) };
                    assert(add_new(before, xs) == add_new(acc2, xs.drop_first()));
                    assert(add_new(acc2, xs.drop_first()) == acc2);
                }
            }
            Type::Fun(params, ret) => {
                let ghost before = ids(vars@);
                collect_list(params, vars);
                ret.collect_free_vars(vars);
                proof {
                    lemma_add_new_concat(before, occ_list(tview_list(params@)), occ(ret@));
                }
            }
            Type::ADT(_, args) => {
                collect_list(args, vars);
            }
            Type::Option(inner) => {
                inner.collect_free_vars(vars);
            }
            Type::List(inner) => {
                inner.collect_free_vars(vars);
            }
            Type::Result(ok, err) => {
                let ghost before = ids(vars@);
                ok.collect_free_vars(vars);
                err.collect_free_vars(vars);
                proof {
                    lemma_add_new_concat(before, occ(ok@), occ(err@));
                }
            }
            _ => {}
        }
    }

    /// Substitute type variables according to a mapping; the first entry for
    /// a variable wins.
    pub fn substitute(&self, subst: &[(TypeVarId, Type)]) -> (r: Type)
        ensures
            r@ == subst_ty(self@, subst_view(subst@)),
        decreases self,
    {
        match self {
            Type::Var(id) => {
                let mut i: usize = 0;
                proof {
                    assert(subst_view(subst@).subrange(0, subst@.len() as int) =~= subst_view(subst@));
                    assert(self@ == TyV::Var(id.0));
                }
                while i < subst.len()
                    invariant
                        self@ == TyV::Var(id.0),
                        i <= subst@.len(),
                        subst_lookup(subst_view(subst@), id.0)
                            == subst_lookup(subst_view(subst@).subrange(i as int, subst@.len() as int), id.0),
                    decreases subst@.len() - i,
                {
                    let ghost rest = subst_view(subst@).subrange(i as int, subst@.len() as int);
                    proof { assert(rest[0] == (subst@[i as int].0.0, tview(subst@[i as int].1))); }
                    if subst[i].0.0 == id.0 {
                        proof {
                            assert(subst_lookup(rest, id.0) == Some(rest[0].1));
                            assert(self@ == TyV::Var(id.0));
                        }
                        let r = subst[i].1.duplicate();
                        return r;
                    }
                    proof {
                        assert(rest.drop_first() =~= subst_view(subst@).subrange(i + 1, subst@.len() as int));
                    }
                    i = i + 1;
                }
                proof {
                    assert(subst_view(subst@).subrange(i as int, subst@.len() as int).len() == 0);
                    assert(self@ == TyV::Var(id.0));
                }
                Type::Var(*id)
            }
            Type::Fun(params, ret) => {
                let ps = substitute_list(params, subst);
                let r = ret.substitute(subst);
                Type::Fun(ps, Box::new(r))
            }
            Type::ADT(name, args) => {
                let a = substitute_list(args, subst);
                Type::ADT(name.clone(), a)
            }
            Type::Option(inner) => Type::Option(Box::new(inner.substitute(subst))),
            Type::Result(ok, err) => {
                let a = ok.substitute(subst);
                let b = err.substitute(subst);
                Type::Result(Box::new(a), Box::new(b))
            }
            Type::List(inner) => Type::List(Box::new(inner.substitute(subst))),
            Type::Int => Type::Int,
            Type::Float => Type::Float,
            Type::Bool => Type::Bool,
            Type::String => Type::String,
            Type::Unit => Type::Unit,
        }
    }
}

/// The renderings of `ts`, separated by `", "`.
pub fn display_list(ts: &Vec<Type>) -> (r: std::string::String)
    ensures
        r@ == display_join(tview_list(ts@)),
    decreases ts,
{
    proof {
        lemma_tview_list(ts@);
        assert(tview_list(ts@).subrange(0, 0) =~= Seq::<TyV>::empty());
    }
    let mut s = std::string::String::new();
    let mut i: usize = 0;
    while i < ts.len()
        invariant
            i <= ts@.len(),
            tview_list(ts@).len() == ts@.len(),
            forall|k: int| 0 <= k < ts@.len() ==> #[trigger] tview_list(ts@)[k] == tview(ts@[k]),
            s@ == display_join(tview_list(ts@).subrange(0, i as int)),
        decreases ts@.len() - i,
    {
        proof { assert(decreases_to!(ts => ts@[i as int])); }
        let d = ts[i].display();
        let ghost pre = tview_list(ts@).subrange(0, i as int);
        let ghost nxt = tview_list(ts@).subrange(0, i + 1);
        proof {
            assert(nxt.drop_last() =~= pre);
            assert(nxt.last() == tview(ts@[i as int]));
        }
        if i > 0 {
            append(&mut s, ", ");
        } else {
            proof { assert(pre.len() == 0); assert(s@ =~= Seq::<char>::empty()); }
        }
        append(&mut s, d.as_str());
        proof {
            if i == 0 {
                assert(s@ =~= display(nxt[0]));
            } else {
                assert(s@ =~= display_join(nxt));
            }
        }
        i = i + 1;
    }
    proof { assert(tview_list(ts@).subrange(0, ts@.len() as int) =~= tview_list(ts@)); }
    s
}

/// Appends the variables of `ts` to `vars`, skipping those already there.
fn collect_list(ts: &Vec<Type>, vars: &mut Vec<TypeVarId>)
    ensures
        ids(final(vars)@) == add_new(ids(old(vars)@), occ_list(tview_list(ts@))),
    decreases ts,
{
    let ghost start = ids(vars@);
    proof { lemma_tview_list(ts@); }
    let mut i: usize = 0;
    while i < ts.len()
        invariant
            i <= ts@.len(),
            tview_list(ts@).len() == ts@.len(),
            forall|k: int| 0 <= k < ts@.len() ==> #[trigger] tview_list(ts@)[k] == tview(ts@[k]),
            ids(vars@) == add_new(start, occ_list(tview_list(ts@).subrange(0, i as int))),
        decreases ts@.len() - i,
    {
        proof { assert(decreases_to!(ts => ts@[i as int])); }
        let ghost pre = tview_list(ts@).subrange(0, i as int);
        ts[i].collect_free_vars(vars);
        proof {
            lemma_occ_list_push(pre, tview(ts@[i as int]));
            assert(tview_list(ts@).subrange(0, i + 1) =~= pre.push(tview(ts@[i as int])));
            lemma_add_new_concat(start, occ_list(pre), occ(tview(ts@[i as int])));
        }
        i = i + 1;
    }
    proof { assert(tview_list(ts@).subrange(0, ts@.len() as int) =~= tview_list(ts@)); }
}

/// The occurrences in `ts.push(t)` are those of `ts` followed by those of `t`.
pub proof fn lemma_occ_list_push(ts: Seq<TyV>, t: TyV)
    ensures
        occ_list(ts.push(t)) == occ_list(ts) + occ(t),
    decreases ts.len(),
{
    let tp = ts.push(t);
    assert(tp.len() > 0);
    assert(occ_list(tp) == occ(tp[0]) + occ_list(tp.drop_first()));
    if ts.len() == 0 {
        assert(tp.drop_first() =~= Seq::<TyV>::empty());
        assert(occ_list(Seq::<TyV>::empty()) == Seq::<u32>::empty());
        assert(tp[0] == t);
        assert(occ_list(ts) == Seq::<u32>::empty());
        assert(occ(t) + Seq::<u32>::empty() =~= occ(t));
        assert(Seq::<u32>::empty() + occ(t) =~= occ(t));
    } else {
        assert(tp.drop_first() =~= ts.drop_first().push(t));
        assert(tp[0] == ts[0]);
        lemma_occ_list_push(ts.drop_first(), t);
        assert(occ(ts[0]) + (occ_list(ts.drop_first()) + occ(t)) =~= (occ(ts[0]) + occ_list(ts.drop_first())) + occ(t));
    }
}

/// `subst_list` element by element.
pub proof fn lemma_subst_list(ts: Seq<TyV>, subst: Seq<(u32, TyV)>)
    ensures
        subst_list(ts, subst).len() == ts.len(),
        forall|k: int| 0 <= k < ts.len() ==> #[trigger] subst_list(ts, subst)[k] == subst_ty(ts[k], subst),
    decreases ts.len(),
{
    if ts.len() > 0 {
        lemma_subst_list(ts.drop_first(), subst);
        assert forall|k: int| 0 <= k < ts.len() implies #[trigger] subst_list(ts, subst)[k] == subst_ty(ts[k], subst) by {
            if k > 0 {
                assert(ts.drop_first()[k - 1] == ts[k]);
            }
        }
    }
}

/// Substitutes in each type of `ts`.
fn substitute_list(ts: &Vec<Type>, subst: &[(TypeVarId, Type)]) -> (r: Vec<Type>)
    ensures
        tview_list(r@) == subst_list(tview_list(ts@), subst_view(subst@)),
    decreases ts,
{
    proof {
        lemma_tview_list(ts@);
        lemma_subst_list(tview_list(ts@), subst_view(subst@));
    }
    let mut r: Vec<Type> = Vec::new();
    let mut i: usize = 0;
    while i < ts.len()
        invariant
            i <= ts@.len(),
            r@.len() == i,
            tview_list(ts@).len() == ts@.len(),
            forall|k: int| 0 <= k < ts@.len() ==> #[trigger] tview_list(ts@)[k] == tview(ts@[k]),
            forall|k: int| 0 <= k < i ==> #[trigger] tview(r@[k]) == subst_ty(tview(ts@[k]), subst_view(subst@)),
        decreases ts@.len() - i,
    {
        proof { assert(decreases_to!(ts => ts@[i as int])); }
        let t = ts[i].substitute(subst);
        r.push(t);
        i = i + 1;
    }
    proof {
        lemma_tview_list(r@);
        assert(tview_list(r@) =~= subst_list(tview_list(ts@), subst_view(subst@)));
    }
    r
}

/// A polymorphic type scheme: forall vars. type.
#[derive(Debug)]
pub struct TypeScheme {
    /// Quantified type variable IDs.
    pub vars: Vec<TypeVarId>,
    /// The body type.
    pub ty: Type,
}

impl TypeScheme {
    /// Create a monomorphic scheme (no quantified variables).
    pub fn mono(ty: Type) -> (r: TypeScheme)
        ensures
            r.vars@.len() == 0,
            r.ty == ty,
    {
        TypeScheme { vars: Vec::new(), ty }
    }

    /// A copy of this scheme.
    pub fn duplicate(&self) -> (r: TypeScheme)
        ensures
            r.vars@ == self.vars@,
            r.ty@ == self.ty@,
    {
        TypeScheme { vars: self.vars.clone(), ty: self.ty.duplicate() }
    }
}

impl Type {
    /// A structurally equal copy of this type.
    pub fn duplicate(&self) -> (r: Type)
        ensures
            r@ == self@,
        decreases self,
    {
        match self {
            Type::Int => Type::Int,
            Type::Float => Type::Float,
            Type::Bool => Type::Bool,
            Type::String => Type::String,
            Type::Unit => Type::Unit,
            Type::Var(id) => Type::Var(*id),
            Type::Fun(ps, r) => Type::Fun(duplicate_list(ps), Box::new(r.duplicate())),
            Type::ADT(n, args) => Type::ADT(n.clone(), duplicate_list(args)),
            Type::Option(i) => Type::Option(Box::new(i.duplicate())),
            Type::List(i) => Type::List(Box::new(i.duplicate())),
            Type::Result(a, b) => Type::Result(Box::new(a.duplicate()), Box::new(b.duplicate())),
        }
    }
}

/// A copy of a list of types.
pub fn duplicate_list(ts: &Vec<Type>) -> (r: Vec<Type>)
    ensures
        tview_list(r@) == tview_list(ts@),
        r@.len() == ts@.len(),
    decreases ts,
{
    let mut r: Vec<Type> = Vec::new();
    let mut i: usize = 0;
    while i < ts.len()
        invariant
            i <= ts@.len(),
            r@.len() == i,
            forall|k: int| 0 <= k < i ==> #[trigger] tview(r@[k]) == tview(ts@[k]),
        decreases ts@.len() - i,
    {
        proof { assert(decreases_to!(ts => ts@[i as int])); }
        r.push(ts[i].duplicate());
        i = i + 1;
    }
    proof {
        lemma_tview_list(r@);
        lemma_tview_list(ts@);
        assert(tview_list(r@) =~= tview_list(ts@));
    }
    r
}

impl Clone for Type {
    fn clone(&self) -> (r: Type)
        ensures
            r@ == self@,
    {
        self.duplicate()
    }
}
} // verus!
