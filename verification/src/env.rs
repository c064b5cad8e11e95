//! Type environment: scoped variable bindings, ADT definitions, variant
//! constructors and function effects.
use vstd::prelude::*;
use crate::ast::Effect;
use crate::namemap::NameMap;
use crate::text::owned;
use crate::types::lemma_tview_list_push;
use crate::types::{Type, TyV, TypeScheme, TypeVarId, tview, tview_list, lemma_tview_list, occ, ids, add_new,
    subst_ty, subst_view, duplicate_list, occ_list, subst_lookup};
use crate::unify::UnificationTable;

verus! {

/// A copy of a list of strings.
pub fn clone_strings(v: &Vec<String>) -> (r: Vec<String>)
    ensures
        r@ == v@,
{
    let mut r: Vec<String> = Vec::new();
    let mut i: usize = 0;
    while i < v.len()
        invariant
            i <= v@.len(),
            r@ == v@.subrange(0, i as int),
        decreases v@.len() - i,
    {
        r.push(v[i].clone());
        i = i + 1;
        assert(r@ =~= v@.subrange(0, i as int));
    }
    assert(v@.subrange(0, v@.len() as int) =~= v@);
    r
}

/// Information about a variant of an ADT.
#[derive(Debug)]
pub struct VariantInfo {
    /// The variant's name (e.g., "Circle", "Some", "Ok").
    pub name: String,
    /// The field types of the variant (empty for unit variants).
    pub field_types: Vec<Type>,
    /// The name of the ADT this variant belongs to.
    pub adt_name: String,
    /// Type parameters of the parent ADT.
    pub type_params: Vec<String>,
}

impl VariantInfo {
    /// Equal contents.
    pub open spec fn same(self, other: VariantInfo) -> bool {
        &&& self.name@ == other.name@
        &&& tview_list(self.field_types@) == tview_list(other.field_types@)
        &&& self.field_types@.len() == other.field_types@.len()
        &&& self.adt_name@ == other.adt_name@
        &&& self.type_params@ == other.type_params@
    }

    /// A copy of this variant.
    pub fn duplicate(&self) -> (r: VariantInfo)
        ensures
            r.same(*self),
    {
        VariantInfo {
            name: self.name.clone(),
            field_types: duplicate_list(&self.field_types),
            adt_name: self.adt_name.clone(),
            type_params: clone_strings(&self.type_params),
        }
    }
}

/// Information about a user-defined ADT.
#[derive(Debug)]
pub struct AdtInfo {
    /// The ADT name.
    pub name: String,
    /// Type parameter names.
    pub type_params: Vec<String>,
    /// All variants.
    pub variants: Vec<VariantInfo>,
}

/// Information about a function's effect.
#[derive(Debug)]
pub struct FnEffectInfo {
    /// The declared effect.
    pub effect: Effect,
}

/// The value of a scheme: its quantified variables and its body type.
pub open spec fn scheme_view(s: TypeScheme) -> (Seq<u32>, TyV) {
    (ids(s.vars@), s.ty@)
}

/// The innermost binding of `name` among `scopes` (last scope innermost).
pub open spec fn lookup_scopes(scopes: Seq<Map<Seq<char>, TypeScheme>>, name: Seq<char>) -> Option<TypeScheme>
    decreases scopes.len(),
{
    if scopes.len() == 0 {
        None
    } else if scopes.last().contains_key(name) {
        Some(scopes.last()[name])
    } else {
        lookup_scopes(scopes.drop_last(), name)
    }
}

/// Whether variable `v` is free in scheme `s` once resolved by `table`.
pub open spec fn free_in_scheme(table: UnificationTable, s: TypeScheme, v: u32) -> bool {
    occ(table.resolved(s.ty@)).contains(v) && !ids(s.vars@).contains(v)
}

/// The variable numbered `k` after `n0`, counting with wrap-around.
pub open spec fn nth_fresh(n0: u32, k: nat) -> u32 {
    ((n0 + k) % 0x1_0000_0000) as u32
}

/// The type environment.
#[derive(Debug)]
pub struct TypeEnv {
    /// Variable name -> type scheme, one map per scope (innermost last).
    pub bindings: Vec<NameMap<TypeScheme>>,
    /// ADT name -> definition info.
    pub adt_defs: NameMap<AdtInfo>,
    /// Variant name -> variant info.
    pub variant_defs: NameMap<VariantInfo>,
    /// Function name -> effect info.
    pub fn_effects: NameMap<FnEffectInfo>,
}

impl TypeEnv {
    /// The scopes, outermost first.
    pub closed spec fn scopes(&self) -> Seq<Map<Seq<char>, TypeScheme>> {
        self.bindings@.map_values(|m: NameMap<TypeScheme>| m@)
    }

    /// Every scheme of every scope, scope by scope.
    pub closed spec fn all_schemes(&self) -> Seq<Seq<TypeScheme>> {
        self.bindings@.map_values(|m: NameMap<TypeScheme>| m.values())
    }

    /// Whether `v` is free in some binding of the environment.
    pub open spec fn env_free(&self, table: UnificationTable, v: u32) -> bool {
        exists|i: int, j: int| 0 <= i < self.all_schemes().len() && 0 <= j < self.all_schemes()[i].len()
            && free_in_scheme(table, #[trigger] self.all_schemes()[i][j], v)
    }

    /// An environment with one empty scope and no definitions.
    fn empty() -> (r: TypeEnv)
        ensures
            r.scopes() == seq![Map::<Seq<char>, TypeScheme>::empty()],
            r.adt_defs@ == Map::<Seq<char>, AdtInfo>::empty(),
            r.variant_defs@ == Map::<Seq<char>, VariantInfo>::empty(),
            r.fn_effects@ == Map::<Seq<char>, FnEffectInfo>::empty(),
    {
        let mut b: Vec<NameMap<TypeScheme>> = Vec::new();
        b.push(NameMap::new());
        let r = TypeEnv {
            bindings: b,
            adt_defs: NameMap::new(),
            variant_defs: NameMap::new(),
            fn_effects: NameMap::new(),
        };
        assert(r.scopes() =~= seq![Map::<Seq<char>, TypeScheme>::empty()]);
        r
    }

    /// Push a new scope onto the environment.
    pub fn push_scope(&mut self)
        ensures
            final(self).scopes() == old(self).scopes().push(Map::empty()),
            final(self).adt_defs@ == old(self).adt_defs@,
            final(self).variant_defs@ == old(self).variant_defs@,
            final(self).fn_effects@ == old(self).fn_effects@,
    {
        self.bindings.push(NameMap::new());
        assert(self.scopes() =~= old(self).scopes().push(Map::empty()));
    }

    /// Pop the current scope (nothing happens when there is none).
    pub fn pop_scope(&mut self)
        ensures
            final(self).scopes() == if old(self).scopes().len() == 0 { old(self).scopes() } else { old(self).scopes().drop_last() },
            final(self).adt_defs@ == old(self).adt_defs@,
            final(self).variant_defs@ == old(self).variant_defs@,
            final(self).fn_effects@ == old(self).fn_effects@,
    {
        let _ = self.bindings.pop();
        assert(self.scopes() =~= (if old(self).scopes().len() == 0 { old(self).scopes() } else { old(self).scopes().drop_last() }));
    }

    /// Bind a name to a type scheme in the current scope (nothing happens
    /// when there is no scope).
    pub fn bind(&mut self, name: String, scheme: TypeScheme)
        ensures
            old(self).scopes().len() == 0 ==> final(self).scopes() == old(self).scopes(),
            old(self).scopes().len() > 0 ==> final(self).scopes() == old(self).scopes().update(
                old(self).scopes().len() - 1, old(self).scopes().last().insert(name@, scheme)),
            final(self).adt_defs@ == old(self).adt_defs@,
            final(self).variant_defs@ == old(self).variant_defs@,
            final(self).fn_effects@ == old(self).fn_effects@,
    {
        let n = self.bindings.len();
        if n > 0 {
            let mut b: Vec<NameMap<TypeScheme>> = Vec::new();
            std::mem::swap(&mut b, &mut self.bindings);
            let mut last = b.pop().unwrap();
            last.insert(name, scheme);
            b.push(last);
            self.bindings = b;
            assert(self.scopes() =~= old(self).scopes().update(
                old(self).scopes().len() - 1, old(self).scopes().last().insert(name@, scheme)));
        }
    }

    /// Record the effect of a function.
    pub fn set_effect(&mut self, name: String, info: FnEffectInfo)
        ensures
            final(self).fn_effects@ == old(self).fn_effects@.insert(name@, info),
            final(self).scopes() == old(self).scopes(),
            final(self).adt_defs@ == old(self).adt_defs@,
            final(self).variant_defs@ == old(self).variant_defs@,
    {
        self.fn_effects.insert(name, info);
    }

    /// Look up a name, searching from innermost scope outward.
    pub fn lookup(&self, name: &str) -> (r: Option<&TypeScheme>)
        ensures
            r matches Some(s) ==> lookup_scopes(self.scopes(), name@) == Some(*s),
            r is None ==> lookup_scopes(self.scopes(), name@) is None,
    {
        let mut i: usize = self.bindings.len();
        proof { assert(self.scopes().subrange(0, i as int) =~= self.scopes()); }
        while i > 0
            invariant
                i <= self.bindings@.len(),
                lookup_scopes(self.scopes(), name@) == lookup_scopes(self.scopes().subrange(0, i as int), name@),
            decreases i,
        {
            let ghost sub = self.scopes().subrange(0, i as int);
            proof {
                assert(sub.last() == self.bindings@[i - 1]@);
                assert(sub.drop_last() =~= self.scopes().subrange(0, i - 1));
            }
            match self.bindings[i - 1].get(name) {
                Some(s) => { return Some(s); }
                None => {}
            }
            i = i - 1;
        }
        None
    }

    /// Instantiate a type scheme with fresh type variables: the `k`-th
    /// quantified variable becomes the `k`-th fresh variable of `table`.
    pub fn instantiate(&self, scheme: &TypeScheme, table: &mut UnificationTable) -> (r: Type)
        ensures
            r@ == subst_ty(scheme.ty@, Seq::new(scheme.vars@.len(), |k: int| (scheme.vars@[k].0, TyV::Var(nth_fresh(old(table).next(), k as nat))))),
            final(table).next() == nth_fresh(old(table).next(), scheme.vars@.len()),
            final(table).map() == old(table).map(),
            final(table).ranks() == old(table).ranks(),
            final(table).count() == old(table).count(),
    {
        let ghost n0 = table.next();
        let mut subst: Vec<(TypeVarId, Type)> = Vec::new();
        let mut i: usize = 0;
        while i < scheme.vars.len()
            invariant
                i <= scheme.vars@.len(),
                subst@.len() == i,
                table.next() == nth_fresh(n0, i as nat),
                table.map() == old(table).map(),
                table.ranks() == old(table).ranks(),
                table.count() == old(table).count(),
                n0 == old(table).next(),
                forall|k: int| 0 <= k < i ==> #[trigger] subst_view(subst@)[k] == (scheme.vars@[k].0, TyV::Var(nth_fresh(n0, k as nat))),
            decreases scheme.vars@.len() - i,
        {
            let v = table.fresh_var();
            proof {
                assert(nth_fresh(n0, (i + 1) as nat) == vstd::wrapping::u32_specs::wrapping_add(nth_fresh(n0, i as nat), 1));
            }
            let ghost before = subst@;
            subst.push((scheme.vars[i], v));
            proof {
                assert forall|k: int| 0 <= k < i + 1 implies #[trigger] subst_view(subst@)[k] == (scheme.vars@[k].0, TyV::Var(nth_fresh(n0, k as nat))) by {
                    if k < i {
                        assert(subst@[k] == before[k]);
                        assert(subst_view(before)[k] == (scheme.vars@[k].0, TyV::Var(nth_fresh(n0, k as nat))));
                    }
                }
            }
            i = i + 1;
        }
        proof {
            assert(subst_view(subst@) =~= Seq::new(scheme.vars@.len(), |k: int| (scheme.vars@[k].0, TyV::Var(nth_fresh(n0, k as nat)))));
        }
        if scheme.vars.len() == 0 {
            proof {
                lemma_subst_empty(scheme.ty@);
                assert(Seq::new(0, |k: int| (scheme.vars@[k].0, TyV::Var(nth_fresh(n0, k as nat)))) =~= Seq::<(u32, TyV)>::empty());
            }
            return scheme.ty.duplicate();
        }
        scheme.ty.substitute(subst.as_slice())
    }
}

/// The builtin functions and the values of their schemes (quantified
/// variables and body type), given the first fresh variable `n0` at the time
/// they are made.
pub open spec fn builtin_schemes(n0: u32) -> Map<Seq<char>, (Seq<u32>, TyV)> {
    let v0 = nth_fresh(n0, 0);
    let v1 = nth_fresh(n0, 1);
    let v2 = nth_fresh(n0, 2);
    let v3 = nth_fresh(n0, 3);
    let v4 = nth_fresh(n0, 4);
    let v5 = nth_fresh(n0, 5);
    Map::empty()
        .insert("print"@, (seq![], TyV::Fun(seq![TyV::String], Box::new(TyV::Unit))))
        .insert("to_string"@, (seq![v0], TyV::Fun(seq![TyV::Var(v0)], Box::new(TyV::String))))
        .insert("int_to_string"@, (seq![], TyV::Fun(seq![TyV::Int], Box::new(TyV::String))))
        .insert("float_to_string"@, (seq![], TyV::Fun(seq![TyV::Float], Box::new(TyV::String))))
        .insert("string_to_int"@, (seq![], TyV::Fun(seq![TyV::String], Box::new(TyV::Result(Box::new(TyV::Int), Box::new(TyV::String))))))
        .insert("to_float"@, (seq![], TyV::Fun(seq![TyV::Int], Box::new(TyV::Float))))
        .insert("to_int"@, (seq![], TyV::Fun(seq![TyV::Float], Box::new(TyV::Int))))
        .insert("str_len"@, (seq![], TyV::Fun(seq![TyV::String], Box::new(TyV::Int))))
        .insert("char_at"@, (seq![], TyV::Fun(seq![TyV::String, TyV::Int], Box::new(TyV::String))))
        .insert("char_code"@, (seq![], TyV::Fun(seq![TyV::String], Box::new(TyV::Int))))
        .insert("from_char_code"@, (seq![], TyV::Fun(seq![TyV::Int], Box::new(TyV::String))))
        .insert("len"@, (seq![v1], TyV::Fun(seq![TyV::List(Box::new(TyV::Var(v1)))], Box::new(TyV::Int))))
        .insert("list_get"@, (seq![v2], TyV::Fun(seq![TyV::List(Box::new(TyV::Var(v2))), TyV::Int], Box::new(TyV::Option(Box::new(TyV::Var(v2)))))))
        .insert("list_push"@, (seq![v3], TyV::Fun(seq![TyV::List(Box::new(TyV::Var(v3))), TyV::Var(v3)], Box::new(TyV::List(Box::new(TyV::Var(v3)))))))
        .insert("list_map"@, (seq![v4, v5], TyV::Fun(
            seq![TyV::List(Box::new(TyV::Var(v4))), TyV::Fun(seq![TyV::Var(v4)], Box::new(TyV::Var(v5)))],
            Box::new(TyV::List(Box::new(TyV::Var(v5)))))))
        .insert("read_line"@, (seq![], TyV::Fun(seq![], Box::new(TyV::String))))
}

/// The effect of each builtin function: `print`, `read_line` and
/// `list_map` perform IO, the others are pure.
pub open spec fn builtin_effects() -> Map<Seq<char>, FnEffectInfo> {
    Map::empty()
        .insert("print"@, FnEffectInfo { effect: Effect::Io })
        .insert("to_string"@, FnEffectInfo { effect: Effect::Pure })
        .insert("int_to_string"@, FnEffectInfo { effect: Effect::Pure })
        .insert("float_to_string"@, FnEffectInfo { effect: Effect::Pure })
        .insert("string_to_int"@, FnEffectInfo { effect: Effect::Pure })
        .insert("to_float"@, FnEffectInfo { effect: Effect::Pure })
        .insert("to_int"@, FnEffectInfo { effect: Effect::Pure })
        .insert("str_len"@, FnEffectInfo { effect: Effect::Pure })
        .insert("char_at"@, FnEffectInfo { effect: Effect::Pure })
        .insert("char_code"@, FnEffectInfo { effect: Effect::Pure })
        .insert("from_char_code"@, FnEffectInfo { effect: Effect::Pure })
        .insert("len"@, FnEffectInfo { effect: Effect::Pure })
        .insert("list_get"@, FnEffectInfo { effect: Effect::Pure })
        .insert("list_push"@, FnEffectInfo { effect: Effect::Pure })
        .insert("list_map"@, FnEffectInfo { effect: Effect::Io })
        .insert("read_line"@, FnEffectInfo { effect: Effect::Io })
}

/// A scope whose schemes have exactly the values of `t`.
pub open spec fn views_match(m: Map<Seq<char>, TypeScheme>, t: Map<Seq<char>, (Seq<u32>, TyV)>) -> bool {
    &&& m.dom() == t.dom()
    &&& forall|n: Seq<char>| #[trigger] m.contains_key(n) ==> scheme_view(m[n]) == t[n]
}

impl TypeEnv {
    /// Binds one builtin and records its effect.
    fn add_builtin(&mut self, name: &str, scheme: TypeScheme, effect: Effect, Ghost(t): Ghost<Map<Seq<char>, (Seq<u32>, TyV)>>)
        requires
            old(self).scopes().len() == 1,
            views_match(old(self).scopes()[0], t),
        ensures
            final(self).scopes().len() == 1,
            views_match(final(self).scopes()[0], t.insert(name@, scheme_view(scheme))),
            final(self).fn_effects@ == old(self).fn_effects@.insert(name@, FnEffectInfo { effect }),
            final(self).adt_defs@ == old(self).adt_defs@,
            final(self).variant_defs@ == old(self).variant_defs@,
    {
        let ghost sv = scheme_view(scheme);
        self.bind(owned(name), scheme);
        self.fn_effects.insert(owned(name), FnEffectInfo { effect });
        proof {
            let m = self.scopes()[0];
            assert(m == old(self).scopes()[0].insert(name@, scheme));
            assert(m.dom() =~= t.insert(name@, sv).dom());
        }
    }

    /// Create a new type environment with the builtin functions bound in its
    /// single scope; their type variables are the next six fresh variables
    /// of `table`.
    pub fn new(table: &mut UnificationTable) -> (env: TypeEnv)
        ensures
            env.scopes().len() == 1,
            views_match(env.scopes()[0], builtin_schemes(old(table).next())),
            env.fn_effects@ == builtin_effects(),
            env.adt_defs@ == Map::<Seq<char>, AdtInfo>::empty(),
            env.variant_defs@ == Map::<Seq<char>, VariantInfo>::empty(),
            final(table).next() == nth_fresh(old(table).next(), 6),
            final(table).map() == old(table).map(),
            final(table).ranks() == old(table).ranks(),
            final(table).count() == old(table).count(),
    {
        let ghost n0 = table.next();
        proof {
            assert forall|k: nat| k <= 5 implies nth_fresh(n0, k + 1) == vstd::wrapping::u32_specs::wrapping_add(nth_fresh(n0, k), 1) by {}
            assert(nth_fresh(n0, 0) == n0);
        }
        let mut env = TypeEnv::empty();
        let ghost mut t = Map::<Seq<char>, (Seq<u32>, TyV)>::empty();
        proof { assert(env.scopes()[0].dom() =~= t.dom()); }

        let s = TypeScheme::mono(Type::Fun(vec![Type::String], Box::new(Type::Unit)));
        let ghost sv = scheme_view(s);
        proof {
            reveal_with_fuel(tview, 4);
            lemma_tview_short(s.ty->Fun_0@); assert(ids(s.vars@) =~= seq![]);
            assert(tview(Type::String) == TyV::String);
            assert(tview(Type::Unit) == TyV::Unit);
            assert(tview(Type::Int) == TyV::Int);
        }
        assert(sv == (Seq::<u32>::empty(), TyV::Fun(seq![TyV::String], Box::new(TyV::Unit))));
        env.add_builtin("print", s, Effect::Io, Ghost(t));
        proof { t = t.insert("print"@, sv); }

        let a = table.fresh_var();
        let a_id = TypeVarId(nth_var(&a));
        let s = TypeScheme { vars: vec![a_id], ty: Type::Fun(vec![a], Box::new(Type::String)) };
        let ghost sv = scheme_view(s);
        proof {
            reveal_with_fuel(tview, 4);
            lemma_tview_short(s.ty->Fun_0@); assert(ids(s.vars@) =~= seq![a_id.0]); }
        assert(sv == (seq![nth_fresh(n0, 0)], TyV::Fun(seq![TyV::Var(nth_fresh(n0, 0))], Box::new(TyV::String))));
        env.add_builtin("to_string", s, Effect::Pure, Ghost(t));
        proof { t = t.insert("to_string"@, sv); }

        let s = TypeScheme::mono(Type::Fun(vec![Type::Int], Box::new(Type::String)));
        let ghost sv = scheme_view(s);
        proof {
            reveal_with_fuel(tview, 4);
            lemma_tview_short(s.ty->Fun_0@); assert(ids(s.vars@) =~= seq![]); }
        assert(sv == (Seq::<u32>::empty(), TyV::Fun(seq![TyV::Int], Box::new(TyV::String))));
        env.add_builtin("int_to_string", s, Effect::Pure, Ghost(t));
        proof { t = t.insert("int_to_string"@, sv); }

        let s = TypeScheme::mono(Type::Fun(vec![Type::Float], Box::new(Type::String)));
        let ghost sv = scheme_view(s);
        proof {
            reveal_with_fuel(tview, 4);
            lemma_tview_short(s.ty->Fun_0@); assert(ids(s.vars@) =~= seq![]); }
        assert(sv == (Seq::<u32>::empty(), TyV::Fun(seq![TyV::Float], Box::new(TyV::String))));
        env.add_builtin("float_to_string", s, Effect::Pure, Ghost(t));
        proof { t = t.insert("float_to_string"@, sv); }

        let s = TypeScheme::mono(Type::Fun(vec![Type::String],
            Box::new(Type::Result(Box::new(Type::Int), Box::new(Type::String)))));
        let ghost sv = scheme_view(s);
        proof {
            reveal_with_fuel(tview, 4);
            lemma_tview_short(s.ty->Fun_0@); assert(ids(s.vars@) =~= seq![]); }
        assert(tview(Type::Result(Box::new(Type::Int), Box::new(Type::String))) == TyV::Result(Box::new(TyV::Int), Box::new(TyV::String)));
        assert(sv == (Seq::<u32>::empty(), TyV::Fun(seq![TyV::String], Box::new(TyV::Result(Box::new(TyV::Int), Box::new(TyV::String))))));
        env.add_builtin("string_to_int", s, Effect::Pure, Ghost(t));
        proof { t = t.insert("string_to_int"@, sv); }

        let s = TypeScheme::mono(Type::Fun(vec![Type::Int], Box::new(Type::Float)));
        let ghost sv = scheme_view(s);
        proof {
            reveal_with_fuel(tview, 4);
            lemma_tview_short(s.ty->Fun_0@); assert(ids(s.vars@) =~= seq![]); }
        assert(sv == (Seq::<u32>::empty(), TyV::Fun(seq![TyV::Int], Box::new(TyV::Float))));
        env.add_builtin("to_float", s, Effect::Pure, Ghost(t));
        proof { t = t.insert("to_float"@, sv); }

        let s = TypeScheme::mono(Type::Fun(vec![Type::Float], Box::new(Type::Int)));
        let ghost sv = scheme_view(s);
        proof {
            reveal_with_fuel(tview, 4);
            lemma_tview_short(s.ty->Fun_0@); assert(ids(s.vars@) =~= seq![]); }
        assert(sv == (Seq::<u32>::empty(), TyV::Fun(seq![TyV::Float], Box::new(TyV::Int))));
        env.add_builtin("to_int", s, Effect::Pure, Ghost(t));
        proof { t = t.insert("to_int"@, sv); }

        let s = TypeScheme::mono(Type::Fun(vec![Type::String], Box::new(Type::Int)));
        let ghost sv = scheme_view(s);
        proof {
            reveal_with_fuel(tview, 4);
            lemma_tview_short(s.ty->Fun_0@); assert(ids(s.vars@) =~= seq![]); }
        assert(sv == (Seq::<u32>::empty(), TyV::Fun(seq![TyV::String], Box::new(TyV::Int))));
        env.add_builtin("str_len", s, Effect::Pure, Ghost(t));
        proof { t = t.insert("str_len"@, sv); }

        let s = TypeScheme::mono(Type::Fun(vec![Type::String, Type::Int], Box::new(Type::String)));
        let ghost sv = scheme_view(s);
        proof {
            reveal_with_fuel(tview, 4);
            lemma_tview_short(s.ty->Fun_0@); assert(ids(s.vars@) =~= seq![]); }
        assert(sv == (Seq::<u32>::empty(), TyV::Fun(seq![TyV::String, TyV::Int], Box::new(TyV::String))));
        env.add_builtin("char_at", s, Effect::Pure, Ghost(t));
        proof { t = t.insert("char_at"@, sv); }

        let s = TypeScheme::mono(Type::Fun(vec![Type::String], Box::new(Type::Int)));
        let ghost sv = scheme_view(s);
        proof {
            reveal_with_fuel(tview, 4);
            lemma_tview_short(s.ty->Fun_0@); assert(ids(s.vars@) =~= seq![]); }
        assert(sv == (Seq::<u32>::empty(), TyV::Fun(seq![TyV::String], Box::new(TyV::Int))));
        env.add_builtin("char_code", s, Effect::Pure, Ghost(t));
        proof { t = t.insert("char_code"@, sv); }

        let s = TypeScheme::mono(Type::Fun(vec![Type::Int], Box::new(Type::String)));
        let ghost sv = scheme_view(s);
        proof {
            reveal_with_fuel(tview, 4);
            lemma_tview_short(s.ty->Fun_0@); assert(ids(s.vars@) =~= seq![]); }
        assert(sv == (Seq::<u32>::empty(), TyV::Fun(seq![TyV::Int], Box::new(TyV::String))));
        env.add_builtin("from_char_code", s, Effect::Pure, Ghost(t));
        proof { t = t.insert("from_char_code"@, sv); }

        let len_a = table.fresh_var();
        let len_id = TypeVarId(nth_var(&len_a));
        let s = TypeScheme { vars: vec![len_id], ty: Type::Fun(vec![Type::List(Box::new(len_a))], Box::new(Type::Int)) };
        let ghost sv = scheme_view(s);
        proof {
            reveal_with_fuel(tview, 4);
            lemma_tview_short(s.ty->Fun_0@); assert(ids(s.vars@) =~= seq![len_id.0]); }
        assert(sv == (seq![nth_fresh(n0, 1)], TyV::Fun(seq![TyV::List(Box::new(TyV::Var(nth_fresh(n0, 1))))], Box::new(TyV::Int))));
        env.add_builtin("len", s, Effect::Pure, Ghost(t));
        proof { t = t.insert("len"@, sv); }

        let lg_a = table.fresh_var();
        let lg_id = TypeVarId(nth_var(&lg_a));
        let lg_a2 = lg_a.duplicate();
        let s = TypeScheme { vars: vec![lg_id], ty: Type::Fun(vec![Type::List(Box::new(lg_a)), Type::Int],
            Box::new(Type::Option(Box::new(lg_a2)))) };
        let ghost sv = scheme_view(s);
        proof {
            reveal_with_fuel(tview, 4);
            lemma_tview_short(s.ty->Fun_0@); assert(ids(s.vars@) =~= seq![lg_id.0]); }
        assert(sv == (seq![nth_fresh(n0, 2)], TyV::Fun(seq![TyV::List(Box::new(TyV::Var(nth_fresh(n0, 2)))), TyV::Int], Box::new(TyV::Option(Box::new(TyV::Var(nth_fresh(n0, 2))))))));
        env.add_builtin("list_get", s, Effect::Pure, Ghost(t));
        proof { t = t.insert("list_get"@, sv); }

        let lp_a = table.fresh_var();
        let lp_id = TypeVarId(nth_var(&lp_a));
        let lp_a2 = lp_a.duplicate();
        let lp_a3 = lp_a.duplicate();
        let s = TypeScheme { vars: vec![lp_id], ty: Type::Fun(vec![Type::List(Box::new(lp_a)), lp_a2],
            Box::new(Type::List(Box::new(lp_a3)))) };
        let ghost sv = scheme_view(s);
        proof {
            reveal_with_fuel(tview, 4);
            lemma_tview_short(s.ty->Fun_0@); assert(ids(s.vars@) =~= seq![lp_id.0]); }
        assert(sv == (seq![nth_fresh(n0, 3)], TyV::Fun(seq![TyV::List(Box::new(TyV::Var(nth_fresh(n0, 3)))), TyV::Var(nth_fresh(n0, 3))], Box::new(TyV::List(Box::new(TyV::Var(nth_fresh(n0, 3))))))));
        env.add_builtin("list_push", s, Effect::Pure, Ghost(t));
        proof { t = t.insert("list_push"@, sv); }

        let lm_a = table.fresh_var();
        let lm_a_id = TypeVarId(nth_var(&lm_a));
        let lm_b = table.fresh_var();
        let lm_b_id = TypeVarId(nth_var(&lm_b));
        let lm_a2 = lm_a.duplicate();
        let lm_b2 = lm_b.duplicate();
        let s = TypeScheme { vars: vec![lm_a_id, lm_b_id], ty: Type::Fun(
            vec![Type::List(Box::new(lm_a)), Type::Fun(vec![lm_a2], Box::new(lm_b))],
            Box::new(Type::List(Box::new(lm_b2)))) };
        let ghost sv = scheme_view(s);
        proof {
            reveal_with_fuel(tview, 4);
            lemma_tview_short(s.ty->Fun_0@); assert(ids(s.vars@) =~= seq![lm_a_id.0, lm_b_id.0]); }
        assert(sv == (seq![nth_fresh(n0, 4), nth_fresh(n0, 5)], TyV::Fun(seq![TyV::List(Box::new(TyV::Var(nth_fresh(n0, 4)))), TyV::Fun(seq![TyV::Var(nth_fresh(n0, 4))], Box::new(TyV::Var(nth_fresh(n0, 5))))], Box::new(TyV::List(Box::new(TyV::Var(nth_fresh(n0, 5))))))));
        env.add_builtin("list_map", s, Effect::Io, Ghost(t));
        proof { t = t.insert("list_map"@, sv); }

        let s = TypeScheme::mono(Type::Fun(vec![], Box::new(Type::String)));
        let ghost sv = scheme_view(s);
        proof {
            reveal_with_fuel(tview, 4);
            lemma_tview_short(s.ty->Fun_0@); assert(ids(s.vars@) =~= seq![]); }
        assert(sv == (Seq::<u32>::empty(), TyV::Fun(seq![], Box::new(TyV::String))));
        env.add_builtin("read_line", s, Effect::Io, Ghost(t));
        proof {
            t = t.insert("read_line"@, sv);
            assert(t == builtin_schemes(n0));
        }
        env
    }

    /// Whether variable `v` is free in some binding of the environment once
    /// resolved by `table`.
    fn has_free_var(&self, table: &UnificationTable, v: u32) -> (r: bool)
        ensures
            r == self.env_free(*table, v),
    {
        let mut i: usize = 0;
        while i < self.bindings.len()
            invariant
                i <= self.bindings@.len(),
                self.all_schemes().len() == self.bindings@.len(),
                forall|a: int, b: int| 0 <= a < i && 0 <= b < self.all_schemes()[a].len()
                    ==> !free_in_scheme(*table, #[trigger] self.all_schemes()[a][b], v),
            decreases self.bindings@.len() - i,
        {
            let vals = self.bindings[i].value_list();
            let ghost sc = self.all_schemes()[i as int];
            proof { assert(sc == self.bindings@[i as int].values()); }
            let mut j: usize = 0;
            while j < vals.len()
                invariant
                    i < self.bindings@.len(),
                    j <= vals@.len(),
                    self.all_schemes().len() == self.bindings@.len(),
                    sc == self.all_schemes()[i as int],
                    vals@.len() == sc.len(),
                    forall|k: int| 0 <= k < vals@.len() ==> *vals@[k] == sc[k],
                    forall|a: int, b: int| 0 <= a < i && 0 <= b < self.all_schemes()[a].len()
                        ==> !free_in_scheme(*table, #[trigger] self.all_schemes()[a][b], v),
                    forall|b: int| 0 <= b < j ==> !free_in_scheme(*table, #[trigger] sc[b], v),
                decreases vals@.len() - j,
            {
                let scheme = vals[j];
                let resolved = table.deep_resolve(&scheme.ty);
                let free = resolved.free_vars();
                proof {
                    lemma_add_new_members(seq![], occ(resolved@));
                    assert(sc[j as int] == *scheme);
                }
                if contains_var(&free, v) && !contains_var(&scheme.vars, v) {
                    proof {
                        assert(free_in_scheme(*table, self.all_schemes()[i as int][j as int], v));
                    }
                    return true;
                }
                j = j + 1;
            }
            proof {
                assert forall|a: int, b: int| 0 <= a < i + 1 && 0 <= b < self.all_schemes()[a].len()
                    implies !free_in_scheme(*table, #[trigger] self.all_schemes()[a][b], v) by {
                    if a == i {
                        assert(self.all_schemes()[a][b] == sc[b]);
                    }
                }
            }
            i = i + 1;
        }
        false
    }

    /// Generalize a type into a type scheme by quantifying over the free
    /// variables of its resolution that are not free in the environment, in
    /// order of first occurrence.
    pub fn generalize(&self, ty: &Type, table: &UnificationTable) -> (r: TypeScheme)
        ensures
            table.wf(),
            r.ty@ == table.resolved(ty@),
            ids(r.vars@) == add_new(seq![], occ(table.resolved(ty@))).filter(|v: u32| !self.env_free(*table, v)),
    {
        let resolved = table.deep_resolve(ty);
        let free = resolved.free_vars();
        let mut quantified: Vec<TypeVarId> = Vec::new();
        let ghost pred = |v: u32| !self.env_free(*table, v);
        proof {
            reveal(Seq::filter);
            assert(ids(free@).subrange(0, 0).len() == 0);
            assert(ids(quantified@) =~= Seq::<u32>::empty());
        }
        let mut i: usize = 0;
        while i < free.len()
            invariant
                i <= free@.len(),
                pred == |v: u32| !self.env_free(*table, v),
                ids(quantified@) == ids(free@).subrange(0, i as int).filter(pred),
            decreases free@.len() - i,
        {
            let v = free[i];
            let ghost pre = ids(free@).subrange(0, i as int);
            proof {
                assert(ids(free@).subrange(0, i + 1) =~= pre.push(v.0));
                reveal(Seq::filter);
                assert(pre.push(v.0).drop_last() =~= pre);
                assert(pre.push(v.0).last() == v.0);
            }
            if !self.has_free_var(table, v.0) {
                quantified.push(v);
                proof { assert(ids(quantified@) =~= pre.filter(pred).push(v.0)); }
            }
            i = i + 1;
        }
        proof { assert(ids(free@).subrange(0, free@.len() as int) =~= ids(free@)); }
        TypeScheme { vars: quantified, ty: resolved }
    }

    /// Register an ADT definition with all its variants: each variant name
    /// (the last of equal names wins) maps to its variant, and the ADT name to
    /// the definition.
    pub fn register_adt(&mut self, info: AdtInfo)
        ensures
            final(self).adt_defs@ == old(self).adt_defs@.insert(info.name@, info),
            forall|k: Seq<char>| #![trigger same_entry(final(self).variant_defs@, old(self).variant_defs@, k)]
                !named_among(info.variants@, info.variants@.len() as int, k)
                ==> same_entry(final(self).variant_defs@, old(self).variant_defs@, k),
            forall|i: int| 0 <= i < info.variants@.len() && !named_among(info.variants@.subrange(i + 1, info.variants@.len() as int), info.variants@.len() - i - 1, #[trigger] info.variants@[i].name@)
                ==> final(self).variant_defs@.contains_key(info.variants@[i].name@)
                    && final(self).variant_defs@[info.variants@[i].name@].same(info.variants@[i]),
            final(self).scopes() == old(self).scopes(),
            final(self).fn_effects@ == old(self).fn_effects@,
    {
        let ghost vs = info.variants@;
        let mut i: usize = 0;
        while i < info.variants.len()
            invariant
                i <= vs.len(),
                vs == info.variants@,
                self.adt_defs@ == old(self).adt_defs@,
                self.scopes() == old(self).scopes(),
                self.fn_effects@ == old(self).fn_effects@,
                forall|k: Seq<char>| #![trigger same_entry(self.variant_defs@, old(self).variant_defs@, k)]
                    !named_among(vs, i as int, k) ==> same_entry(self.variant_defs@, old(self).variant_defs@, k),
                forall|a: int| 0 <= a < i && !named_among(vs.subrange(a + 1, i as int), i - a - 1, #[trigger] vs[a].name@)
                    ==> self.variant_defs@.contains_key(vs[a].name@)
                        && self.variant_defs@[vs[a].name@].same(vs[a]),
            decreases vs.len() - i,
        {
            let v = info.variants[i].duplicate();
            let ghost vd0 = self.variant_defs@;
            let ghost n = vs[i as int].name@;
            self.variant_defs.insert(info.variants[i].name.clone(), v);
            proof {
                assert(self.variant_defs@ == vd0.insert(n, v));
                assert forall|k: Seq<char>| #![trigger same_entry(self.variant_defs@, old(self).variant_defs@, k)]
                    !named_among(vs, i + 1, k) implies same_entry(self.variant_defs@, old(self).variant_defs@, k) by {
                    if k == n {
                        assert(vs[i as int].name@ == k);
                    }
                    if named_among(vs, i as int, k) {
                        let a = choose|a: int| 0 <= a < i && #[trigger] vs[a].name@ == k;
                        assert(vs[a].name@ == k);
                    }
                    assert(same_entry(vd0, old(self).variant_defs@, k));
                }
                assert forall|a: int| 0 <= a < i + 1 && !named_among(vs.subrange(a + 1, i + 1), i + 1 - a - 1, #[trigger] vs[a].name@)
                    implies self.variant_defs@.contains_key(vs[a].name@)
                        && self.variant_defs@[vs[a].name@].same(vs[a]) by {
                    if a < i {
                        let sub = vs.subrange(a + 1, i + 1);
                        assert(sub[i - a - 1] == vs[i as int]);
                        assert(vs[i as int].name@ != vs[a].name@);
                        if named_among(vs.subrange(a + 1, i as int), i - a - 1, vs[a].name@) {
                            let c = choose|c: int| 0 <= c < i - a - 1 && #[trigger] vs.subrange(a + 1, i as int)[c].name@ == vs[a].name@;
                            assert(sub[c] == vs.subrange(a + 1, i as int)[c]);
                        }
                    }
                }
            }
            i = i + 1;
        }
        let name = info.name.clone();
        self.adt_defs.insert(name, info);
    }
}

/// Whether one of the first `n` variants of `vs` is named `k`.
pub open spec fn named_among(vs: Seq<VariantInfo>, n: int, k: Seq<char>) -> bool {
    exists|a: int| 0 <= a < n && #[trigger] vs[a].name@ == k
}

/// Whether two maps agree on key `k`.
pub open spec fn same_entry<V>(m1: Map<Seq<char>, V>, m2: Map<Seq<char>, V>, k: Seq<char>) -> bool {
    &&& m1.contains_key(k) == m2.contains_key(k)
    &&& m2.contains_key(k) ==> m1[k] == m2[k]
}

/// The number of a type known to be a variable.
fn nth_var(t: &Type) -> (r: u32)
    requires
        t@ is Var,
    ensures
        t@ == TyV::Var(r),
{
    match t {
        Type::Var(id) => id.0,
        _ => 0,
    }
}

/// Whether a variable with number `x` is in `vs`.
pub fn contains_var(vs: &Vec<TypeVarId>, x: u32) -> (r: bool)
    ensures
        r == ids(vs@).contains(x),
{
    let mut i: usize = 0;
    while i < vs.len()
        invariant
            i <= vs@.len(),
            forall|k: int| 0 <= k < i ==> vs@[k].0 != x,
        decreases vs@.len() - i,
    {
        if vs[i].0 == x {
            proof { assert(ids(vs@)[i as int] == x); }
            return true;
        }
        i = i + 1;
    }
    proof {
        if ids(vs@).contains(x) {
            let k = choose|k: int| 0 <= k < ids(vs@).len() && ids(vs@)[k] == x;
            assert(vs@[k].0 == x);
        }
    }
    false
}

/// `add_new(acc, xs)` holds exactly the elements of `acc` and of `xs`.
pub proof fn lemma_add_new_members(acc: Seq<u32>, xs: Seq<u32>)
    ensures
        forall|v: u32| add_new(acc, xs).contains(v) <==> acc.contains(v) || xs.contains(v),
    decreases xs.len(),
{
    if xs.len() > 0 {
        let acc2 = if acc.contains(xs[0]) { acc } else { acc.push(xs[0]) };
        lemma_add_new_members(acc2, xs.drop_first());
        assert forall|v: u32| add_new(acc, xs).contains(v) <==> acc.contains(v) || xs.contains(v) by {
            if acc2.contains(v) && !acc.contains(v) {
                assert(v == xs[0]) by {
                    let k = choose|k: int| 0 <= k < acc2.len() && acc2[k] == v;
                    if k < acc.len() { assert(acc[k] == v); }
                }
                assert(xs[0] == v);
            }
            if acc.contains(v) {
                let k = choose|k: int| 0 <= k < acc.len() && acc[k] == v;
                assert(acc2[k] == v);
            }
            if xs.drop_first().contains(v) {
                let k = choose|k: int| 0 <= k < xs.drop_first().len() && xs.drop_first()[k] == v;
                assert(xs[k + 1] == v);
            }
            if xs.contains(v) {
                let k = choose|k: int| 0 <= k < xs.len() && xs[k] == v;
                if k == 0 {
                    if !acc.contains(v) { assert(acc2[acc.len() as int] == v); }
                } else {
                    assert(xs.drop_first()[k - 1] == v);
                }
            }
        }
    }
}

/// The values of a list of up to two types, written out.
pub proof fn lemma_tview_short(ts: Seq<Type>)
    requires
        ts.len() <= 2,
    ensures
        ts.len() == 0 ==> tview_list(ts) == Seq::<TyV>::empty(),
        ts.len() == 1 ==> tview_list(ts) == seq![tview(ts[0])],
        ts.len() == 2 ==> tview_list(ts) == seq![tview(ts[0]), tview(ts[1])],
{
    lemma_tview_list(ts);
    if ts.len() == 0 {
        assert(tview_list(ts) =~= Seq::<TyV>::empty());
    } else if ts.len() == 1 {
        assert(tview_list(ts) =~= seq![tview(ts[0])]);
    } else {
        assert(tview_list(ts) =~= seq![tview(ts[0]), tview(ts[1])]);
    }
}

/// Substituting with no entries changes nothing.
pub proof fn lemma_subst_empty(t: TyV)
    ensures
        subst_ty(t, Seq::empty()) == t,
    decreases t, 0nat,
{
    match t {
        TyV::Fun(ps, r) => {
            lemma_subst_list_empty(ps);
            lemma_subst_empty(*r);
        }
        TyV::ADT(_, args) => lemma_subst_list_empty(args),
        TyV::Option(i) => lemma_subst_empty(*i),
        TyV::List(i) => lemma_subst_empty(*i),
        TyV::Result(a, b) => {
            lemma_subst_empty(*a);
            lemma_subst_empty(*b);
        }
        _ => {}
    }
}

/// Substituting with no entries changes no element of a list.
pub proof fn lemma_subst_list_empty(ts: Seq<TyV>)
    ensures
        crate::types::subst_list(ts, Seq::empty()) == ts,
    decreases ts, 1nat,
{
    if ts.len() > 0 {
        lemma_subst_empty(ts[0]);
        lemma_subst_list_empty(ts.drop_first());
        assert(ts =~= seq![ts[0]] + ts.drop_first());
    }
}


/// Substituting only variables that do not occur in `t` changes nothing.
pub proof fn lemma_subst_disjoint(t: TyV, subst: Seq<(u32, TyV)>)
    requires
        forall|v: u32| #[trigger] occ(t).contains(v) ==> subst_lookup(subst, v) is None,
    ensures
        subst_ty(t, subst) == t,
    decreases t, 0nat,
{
    match t {
        TyV::Var(id) => {
            assert(occ(t) == seq![id]);
            assert(occ(t)[0] == id);
            assert(occ(t).contains(id));
        }
        TyV::Fun(ps, r) => {
            assert forall|v: u32| #[trigger] occ_list(ps).contains(v) implies subst_lookup(subst, v) is None by {
                crate::unify::lemma_concat_contains(occ_list(ps), occ(*r), v);
                assert(occ(t).contains(v));
            }
            assert forall|v: u32| #[trigger] occ(*r).contains(v) implies subst_lookup(subst, v) is None by {
                crate::unify::lemma_concat_contains(occ_list(ps), occ(*r), v);
                assert(occ(t).contains(v));
            }
            lemma_subst_list_disjoint(ps, subst);
            lemma_subst_disjoint(*r, subst);
        }
        TyV::ADT(_, args) => {
            assert forall|v: u32| #[trigger] occ_list(args).contains(v) implies subst_lookup(subst, v) is None by {
                assert(occ(t).contains(v));
            }
            lemma_subst_list_disjoint(args, subst);
        }
        TyV::Option(i) => {
            assert forall|v: u32| #[trigger] occ(*i).contains(v) implies subst_lookup(subst, v) is None by {
                assert(occ(t).contains(v));
            }
            lemma_subst_disjoint(*i, subst);
        }
        TyV::List(i) => {
            assert forall|v: u32| #[trigger] occ(*i).contains(v) implies subst_lookup(subst, v) is None by {
                assert(occ(t).contains(v));
            }
            lemma_subst_disjoint(*i, subst);
        }
        TyV::Result(a, b) => {
            assert forall|v: u32| #[trigger] occ(*a).contains(v) implies subst_lookup(subst, v) is None by {
                crate::unify::lemma_concat_contains(occ(*a), occ(*b), v);
                assert(occ(t).contains(v));
            }
            assert forall|v: u32| #[trigger] occ(*b).contains(v) implies subst_lookup(subst, v) is None by {
                crate::unify::lemma_concat_contains(occ(*a), occ(*b), v);
                assert(occ(t).contains(v));
            }
            lemma_subst_disjoint(*a, subst);
            lemma_subst_disjoint(*b, subst);
        }
        _ => {}
    }
}

/// [`lemma_subst_disjoint`] for each element of a list.
pub proof fn lemma_subst_list_disjoint(ts: Seq<TyV>, subst: Seq<(u32, TyV)>)
    requires
        forall|v: u32| #[trigger] occ_list(ts).contains(v) ==> subst_lookup(subst, v) is None,
    ensures
        crate::types::subst_list(ts, subst) == ts,
    decreases ts, 1nat,
{
    if ts.len() > 0 {
        assert forall|v: u32| #[trigger] occ(ts[0]).contains(v) implies subst_lookup(subst, v) is None by {
            crate::unify::lemma_concat_contains(occ(ts[0]), occ_list(ts.drop_first()), v);
            assert(occ_list(ts).contains(v));
        }
        assert forall|v: u32| #[trigger] occ_list(ts.drop_first()).contains(v) implies subst_lookup(subst, v) is None by {
            crate::unify::lemma_concat_contains(occ(ts[0]), occ_list(ts.drop_first()), v);
            assert(occ_list(ts).contains(v));
        }
        lemma_subst_disjoint(ts[0], subst);
        lemma_subst_list_disjoint(ts.drop_first(), subst);
        assert(ts =~= seq![ts[0]] + ts.drop_first());
    }
}

/// A name bound in the innermost scope is found by lookup with the scheme
/// it was bound to, whatever outer scopes hold.
pub proof fn lemma_bind_then_lookup(scopes: Seq<Map<Seq<char>, TypeScheme>>, name: Seq<char>, scheme: TypeScheme)
    requires
        scopes.len() > 0,
    ensures
        lookup_scopes(scopes.update(scopes.len() - 1, scopes.last().insert(name, scheme)), name) == Some(scheme),
{
    let s2 = scopes.update(scopes.len() - 1, scopes.last().insert(name, scheme));
    assert(s2.last() == scopes.last().insert(name, scheme));
}

/// Pushing a scope and popping it gives back the scopes before; a name
/// bound in the pushed scope is no longer found afterwards unless an outer
/// scope binds it.
pub proof fn lemma_push_pop(scopes: Seq<Map<Seq<char>, TypeScheme>>, inner: Map<Seq<char>, TypeScheme>, name: Seq<char>)
    ensures
        scopes.push(inner).drop_last() == scopes,
        lookup_scopes(scopes.push(inner).drop_last(), name) == lookup_scopes(scopes, name),
        lookup_scopes(scopes.push(inner), name) == (if inner.contains_key(name) { Some(inner[name]) } else { lookup_scopes(scopes, name) }),
{
    assert(scopes.push(inner).drop_last() =~= scopes);
}

/// The scopes after binding each name of `bs` to its scheme in turn, in the
/// innermost scope, as [`TypeEnv::bind`] does.
pub open spec fn binds_in(scopes: Seq<Map<Seq<char>, TypeScheme>>, bs: Seq<(Seq<char>, TypeScheme)>)
    -> Seq<Map<Seq<char>, TypeScheme>>
    decreases bs.len(),
{
    if bs.len() == 0 {
        scopes
    } else {
        let s1 = binds_in(scopes, bs.drop_last());
        if s1.len() == 0 {
            s1
        } else {
            s1.update(s1.len() - 1, s1.last().insert(bs.last().0, bs.last().1))
        }
    }
}

/// Pushing a scope, binding any names in it and popping it gives back the
/// scopes before: every lookup is restored, the names bound in the popped
/// scope are gone and the outer bindings they shadowed are found again.
pub proof fn lemma_pop_restores(scopes: Seq<Map<Seq<char>, TypeScheme>>, bs: Seq<(Seq<char>, TypeScheme)>, name: Seq<char>)
    ensures
        binds_in(scopes.push(Map::empty()), bs).len() == scopes.len() + 1,
        binds_in(scopes.push(Map::empty()), bs).drop_last() == scopes,
        lookup_scopes(binds_in(scopes.push(Map::empty()), bs).drop_last(), name) == lookup_scopes(scopes, name),
    decreases bs.len(),
{
    if bs.len() == 0 {
        assert(scopes.push(Map::empty()).drop_last() =~= scopes);
    } else {
        lemma_pop_restores(scopes, bs.drop_last(), name);
        let s1 = binds_in(scopes.push(Map::empty()), bs.drop_last());
        assert(s1.update(s1.len() - 1, s1.last().insert(bs.last().0, bs.last().1)).drop_last() =~= s1.drop_last());
    }
}

} // verus!
