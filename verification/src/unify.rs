//! Union-find style type unification with an occurs check.
//!
//! The table maps type variables to types. Its invariant is that following
//! bindings never loops: each variable carries a ghost rank, and every
//! variable inside the type bound to `k` ranks strictly below `k`. The occurs
//! check is what keeps that invariant when a new binding is made.
use vstd::prelude::*;
use crate::diagnostics::Span;
use crate::types::{Type, TyV, TypeVarId, tview, tview_list, lemma_tview_list, occ, occ_list};

verus! {

/// The binding map described by an association list whose keys are unique.
pub open spec fn bmap(bs: Seq<(u32, Type)>) -> Map<u32, TyV>
    decreases bs.len(),
{
    if bs.len() == 0 {
        Map::empty()
    } else {
        bmap(bs.drop_last()).insert(bs.last().0, tview(bs.last().1))
    }
}

/// No key occurs twice.
pub open spec fn keys_unique(bs: Seq<(u32, Type)>) -> bool {
    forall|i: int, j: int| 0 <= i < j < bs.len() ==> #[trigger] bs[i].0 != #[trigger] bs[j].0
}

/// `bmap` at a key, by position.
pub proof fn lemma_bmap_index(bs: Seq<(u32, Type)>, k: u32)
    requires
        keys_unique(bs),
    ensures
        bmap(bs).contains_key(k) <==> exists|i: int| 0 <= i < bs.len() && bs[i].0 == k,
        forall|i: int| 0 <= i < bs.len() && bs[i].0 == k ==> bmap(bs)[k] == tview(bs[i].1),
    decreases bs.len(),
{
    if bs.len() > 0 {
        let p = bs.drop_last();
        assert(keys_unique(p));
        lemma_bmap_index(p, k);
        if bs.last().0 == k {
            assert forall|i: int| 0 <= i < bs.len() && bs[i].0 == k implies bmap(bs)[k] == tview(bs[i].1) by {
                if i < bs.len() - 1 {
                    assert(bs[i].0 != bs[bs.len() - 1].0);
                }
            }
        } else {
            assert forall|i: int| 0 <= i < bs.len() && bs[i].0 == k implies bmap(bs)[k] == tview(bs[i].1) by {
                assert(p[i] == bs[i]);
            }
            if exists|i: int| 0 <= i < bs.len() && bs[i].0 == k {
                let i = choose|i: int| 0 <= i < bs.len() && bs[i].0 == k;
                assert(p[i] == bs[i]);
            }
        }
    }
}

/// The largest `rank(v) + 1` over the variables `v` of `t` (zero when none).
pub open spec fn mr(rank: spec_fn(u32) -> nat, t: TyV) -> nat
    decreases t, 0nat,
{
    match t {
        TyV::Var(id) => rank(id) + 1,
        TyV::Fun(ps, r) => nmax(mr_list(rank, ps), mr(rank, *r)),
        TyV::ADT(_, args) => mr_list(rank, args),
        TyV::Option(i) => mr(rank, *i),
        TyV::List(i) => mr(rank, *i),
        TyV::Result(a, b) => nmax(mr(rank, *a), mr(rank, *b)),
        _ => 0,
    }
}

/// `mr` over a list of types.
pub open spec fn mr_list(rank: spec_fn(u32) -> nat, ts: Seq<TyV>) -> nat
    decreases ts, 1nat,
{
    if ts.len() == 0 {
        0
    } else {
        nmax(mr(rank, ts[0]), mr_list(rank, ts.drop_first()))
    }
}

/// The larger of two naturals.
pub open spec fn nmax(a: nat, b: nat) -> nat {
    if a >= b { a } else { b }
}

/// Following bindings never loops: the type bound to `k` only mentions
/// variables ranked below `k`.
pub open spec fn twf(m: Map<u32, TyV>, rank: spec_fn(u32) -> nat) -> bool {
    forall|k: u32| #[trigger] m.contains_key(k) ==> mr(rank, m[k]) <= rank(k)
}

/// The rank of the head variable of `t` (zero for other types).
pub open spec fn head_rank(rank: spec_fn(u32) -> nat, t: TyV) -> nat {
    match t {
        TyV::Var(id) => rank(id) + 1,
        _ => 0,
    }
}

/// Shallow resolution: follow bindings while the type is a bound variable.
pub open spec fn sres(m: Map<u32, TyV>, rank: spec_fn(u32) -> nat, t: TyV) -> TyV
    decreases head_rank(rank, t) when twf(m, rank)
{
    match t {
        TyV::Var(id) => if m.contains_key(id) {
            proof {
                assert(mr(rank, m[id]) <= rank(id));
            }
            sres(m, rank, m[id])
        } else {
            t
        },
        _ => t,
    }
}

/// Deep resolution: replace every bound variable, throughout the type, by
/// the deep resolution of its binding.
pub open spec fn dres(m: Map<u32, TyV>, rank: spec_fn(u32) -> nat, t: TyV) -> TyV
    decreases mr(rank, t), t, 0nat when twf(m, rank)
{
    match t {
        TyV::Var(id) => if m.contains_key(id) {
            proof {
                assert(mr(rank, m[id]) <= rank(id));
            }
            dres(m, rank, m[id])
        } else {
            t
        },
        TyV::Fun(ps, r) => TyV::Fun(dres_list(m, rank, ps), Box::new(dres(m, rank, *r))),
        TyV::ADT(n, args) => TyV::ADT(n, dres_list(m, rank, args)),
        TyV::Option(i) => TyV::Option(Box::new(dres(m, rank, *i))),
        TyV::Result(a, b) => TyV::Result(Box::new(dres(m, rank, *a)), Box::new(dres(m, rank, *b))),
        TyV::List(i) => TyV::List(Box::new(dres(m, rank, *i))),
        _ => t,
    }
}

/// Deep resolution of each type of a list.
pub open spec fn dres_list(m: Map<u32, TyV>, rank: spec_fn(u32) -> nat, ts: Seq<TyV>) -> Seq<TyV>
    decreases mr_list(rank, ts), ts, 1nat when twf(m, rank)
{
    if ts.len() == 0 {
        seq![]
    } else {
        seq![dres(m, rank, ts[0])] + dres_list(m, rank, ts.drop_first())
    }
}


/// Elements of a list are bounded by the list's `mr`.
pub proof fn lemma_mr_list_elem(rank: spec_fn(u32) -> nat, ts: Seq<TyV>, i: int)
    requires
        0 <= i < ts.len(),
    ensures
        mr(rank, ts[i]) <= mr_list(rank, ts),
    decreases ts.len(),
{
    if i > 0 {
        lemma_mr_list_elem(rank, ts.drop_first(), i - 1);
        assert(ts.drop_first()[i - 1] == ts[i]);
    }
}

/// Shallow resolution never increases `mr`, and strictly lowers it from a
/// bound variable; it ends at a type that is not a bound variable.
pub proof fn lemma_sres(m: Map<u32, TyV>, rank: spec_fn(u32) -> nat, t: TyV)
    requires
        twf(m, rank),
    ensures
        mr(rank, sres(m, rank, t)) <= mr(rank, t),
        (t matches TyV::Var(id) && m.contains_key(id)) ==> mr(rank, sres(m, rank, t)) < mr(rank, t),
        sres(m, rank, t) matches TyV::Var(x) ==> !m.contains_key(x),
        dres(m, rank, sres(m, rank, t)) == dres(m, rank, t),
    decreases head_rank(rank, t),
{
    if let TyV::Var(id) = t {
        if m.contains_key(id) {
            assert(mr(rank, m[id]) <= rank(id));
            lemma_sres(m, rank, m[id]);
        }
    }
}

/// An association list of bindings from type variables to types, kept free
/// of cycles.
pub struct UnificationTable {
    /// Bindings, each variable at most once.
    bindings: Vec<(u32, Type)>,
    /// Counter for generating fresh type variable IDs.
    next_var: u32,
    /// Ranks that witness that following bindings terminates.
    rank: Ghost<spec_fn(u32) -> nat>,
}

/// An error produced by unification.
#[derive(Debug)]
pub struct UnifyError {
    /// Expected type.
    pub expected: Type,
    /// Found type.
    pub found: Type,
    /// Source span where the conflict arose.
    pub span: Span,
    /// Whether this is an infinite type (occurs check failure).
    pub is_infinite: bool,
}

impl UnificationTable {
    /// The bindings as a map from variables to types.
    pub closed spec fn map(&self) -> Map<u32, TyV> {
        bmap(self.bindings@)
    }

    /// The ranks that order the bindings.
    pub closed spec fn ranks(&self) -> spec_fn(u32) -> nat {
        self.rank@
    }

    /// The next fresh variable number.
    pub closed spec fn next(&self) -> u32 {
        self.next_var
    }

    /// The number of bindings made so far.
    pub closed spec fn count(&self) -> nat {
        self.bindings@.len()
    }

    #[verifier::type_invariant]
    closed spec fn inv(&self) -> bool {
        keys_unique(self.bindings@) && twf(bmap(self.bindings@), self.rank@)
    }

    /// The table's bindings are free of cycles.
    pub open spec fn wf(&self) -> bool {
        twf(self.map(), self.ranks())
    }

    /// Deep resolution of `t` under this table.
    pub open spec fn resolved(&self, t: TyV) -> TyV {
        dres(self.map(), self.ranks(), t)
    }

    /// Shallow resolution of `t` under this table.
    pub open spec fn shallow(&self, t: TyV) -> TyV {
        sres(self.map(), self.ranks(), t)
    }

    /// Create a new empty unification table.
    pub fn new() -> (t: UnificationTable)
        ensures
            t.map() == Map::<u32, TyV>::empty(),
            t.next() == 0,
            t.count() == 0,
            t.wf(),
    {
        let t = UnificationTable {
            bindings: Vec::new(),
            next_var: 0,
            rank: Ghost(|x: u32| 0nat),
        };
        assert(bmap(t.bindings@) == Map::<u32, TyV>::empty());
        t
    }

    /// Generate a fresh type variable. The counter wraps around after
    /// `u32::MAX`, as unchecked `u32` addition does in a release build.
    pub fn fresh_var(&mut self) -> (r: Type)
        ensures
            r@ == TyV::Var(old(self).next()),
            final(self).next() == vstd::wrapping::u32_specs::wrapping_add(old(self).next(), 1),
            final(self).map() == old(self).map(),
            final(self).ranks() == old(self).ranks(),
            final(self).count() == old(self).count(),
    {
        proof { use_type_invariant(&*self); }
        let id = TypeVarId(self.next_var);
        self.next_var = self.next_var.wrapping_add(1);
        Type::Var(id)
    }

    /// Get the current next variable counter.
    pub fn current_var_count(&self) -> (r: u32)
        ensures
            r == self.next(),
    {
        self.next_var
    }

    /// The position of the binding of `id`, if any.
    fn find(&self, id: u32) -> (r: Option<usize>)
        ensures
            r matches Some(i) ==> i < self.bindings@.len() && self.bindings@[i as int].0 == id
                && self.map().contains_key(id) && self.map()[id] == tview(self.bindings@[i as int].1),
            r is None ==> !self.map().contains_key(id),
    {
        proof {
            use_type_invariant(self);
            lemma_bmap_index(self.bindings@, id);
        }
        let mut i: usize = 0;
        while i < self.bindings.len()
            invariant
                i <= self.bindings@.len(),
                forall|j: int| 0 <= j < i ==> self.bindings@[j].0 != id,
            decreases self.bindings@.len() - i,
        {
            if self.bindings[i].0 == id {
                proof {
                    use_type_invariant(self);
                    lemma_bmap_index(self.bindings@, id);
                }
                return Some(i);
            }
            i = i + 1;
        }
        None
    }

    /// Find the representative type for a type, following binding chains.
    pub fn resolve(&self, ty: &Type) -> (r: Type)
        ensures
            r@ == self.shallow(ty@),
        decreases head_rank(self.ranks(), ty@),
    {
        proof { use_type_invariant(self); }
        match ty {
            Type::Var(id) => {
                match self.find(id.0) {
                    Some(i) => {
                        proof {
                            assert(mr(self.ranks(), self.map()[id.0]) <= self.ranks()(id.0));
                        }
                        self.resolve(&self.bindings[i].1)
                    }
                    None => ty.duplicate(),
                }
            }
            _ => ty.duplicate(),
        }
    }

    /// Deeply resolve a type, replacing all bound variables throughout the
    /// structure.
    pub fn deep_resolve(&self, ty: &Type) -> (r: Type)
        ensures
            r@ == self.resolved(ty@),
            self.wf(),
        decreases mr(self.ranks(), ty@), ty@,
    {
        proof { use_type_invariant(self); }
        match ty {
            Type::Var(id) => {
                match self.find(id.0) {
                    Some(i) => {
                        proof {
                            assert(mr(self.ranks(), self.map()[id.0]) <= self.ranks()(id.0));
                        }
                        self.deep_resolve(&self.bindings[i].1)
                    }
                    None => ty.duplicate(),
                }
            }
            Type::Fun(params, ret) => {
                let ps = self.deep_resolve_list(params);
                let r = self.deep_resolve(ret);
                Type::Fun(ps, Box::new(r))
            }
            Type::ADT(name, args) => {
                let a = self.deep_resolve_list(args);
                Type::ADT(name.clone(), a)
            }
            Type::Option(inner) => Type::Option(Box::new(self.deep_resolve(inner))),
            Type::Result(ok, err) => {
                let a = self.deep_resolve(ok);
                let b = self.deep_resolve(err);
                Type::Result(Box::new(a), Box::new(b))
            }
            Type::List(inner) => Type::List(Box::new(self.deep_resolve(inner))),
            Type::Int => Type::Int,
            Type::Float => Type::Float,
            Type::Bool => Type::Bool,
            Type::String => Type::String,
            Type::Unit => Type::Unit,
        }
    }

    /// Deeply resolve each type of a list.
    pub fn deep_resolve_list(&self, ts: &Vec<Type>) -> (r: Vec<Type>)
        ensures
            tview_list(r@) == dres_list(self.map(), self.ranks(), tview_list(ts@)),
        decreases mr_list(self.ranks(), tview_list(ts@)), tview_list(ts@),
    {
        proof {
            use_type_invariant(self);
            lemma_tview_list(ts@);
            lemma_dres_list(self.map(), self.ranks(), tview_list(ts@));
        }
        let mut r: Vec<Type> = Vec::new();
        let mut i: usize = 0;
        while i < ts.len()
            invariant
                i <= ts@.len(),
                r@.len() == i,
                self.wf(),
                tview_list(ts@).len() == ts@.len(),
                forall|k: int| 0 <= k < ts@.len() ==> #[trigger] tview_list(ts@)[k] == tview(ts@[k]),
                forall|k: int| 0 <= k < i ==> #[trigger] tview(r@[k]) == dres(self.map(), self.ranks(), tview(ts@[k])),
            decreases ts@.len() - i,
        {
            proof {
                lemma_mr_list_elem(self.ranks(), tview_list(ts@), i as int);
                assert(tview_list(ts@)[i as int] == tview(ts@[i as int]));
            }
            let t = self.deep_resolve(&ts[i]);
            r.push(t);
            i = i + 1;
        }
        proof {
            lemma_tview_list(r@);
            lemma_dres_list(self.map(), self.ranks(), tview_list(ts@));
            assert(tview_list(r@) =~= dres_list(self.map(), self.ranks(), tview_list(ts@)));
        }
        r
    }
}

/// `dres_list` element by element.
pub proof fn lemma_dres_list(m: Map<u32, TyV>, rank: spec_fn(u32) -> nat, ts: Seq<TyV>)
    requires
        twf(m, rank),
    ensures
        dres_list(m, rank, ts).len() == ts.len(),
        forall|k: int| 0 <= k < ts.len() ==> #[trigger] dres_list(m, rank, ts)[k] == dres(m, rank, ts[k]),
    decreases ts.len(),
{
    if ts.len() > 0 {
        lemma_dres_list(m, rank, ts.drop_first());
        assert forall|k: int| 0 <= k < ts.len() implies #[trigger] dres_list(m, rank, ts)[k] == dres(m, rank, ts[k]) by {
            if k > 0 {
                assert(ts.drop_first()[k - 1] == ts[k]);
            }
        }
    }
}

/// `occ_list` holds `x` exactly when some element's occurrences hold it.
pub proof fn lemma_occ_list_contains(ts: Seq<TyV>, x: u32)
    ensures
        occ_list(ts).contains(x) <==> exists|i: int| 0 <= i < ts.len() && #[trigger] occ(ts[i]).contains(x),
    decreases ts.len(),
{
    if ts.len() > 0 {
        lemma_occ_list_contains(ts.drop_first(), x);
        let a = occ(ts[0]);
        let b = occ_list(ts.drop_first());
        assert((a + b).contains(x) <==> a.contains(x) || b.contains(x)) by {
            if (a + b).contains(x) {
                let k = choose|k: int| 0 <= k < (a + b).len() && (a + b)[k] == x;
                if k >= a.len() {
                    assert(b[k - a.len()] == x);
                }
            }
            if a.contains(x) {
                let k = choose|k: int| 0 <= k < a.len() && a[k] == x;
                assert((a + b)[k] == x);
            }
            if b.contains(x) {
                let k = choose|k: int| 0 <= k < b.len() && b[k] == x;
                assert((a + b)[k + a.len()] == x);
            }
        }
        if exists|i: int| 0 <= i < ts.len() && #[trigger] occ(ts[i]).contains(x) {
            let i = choose|i: int| 0 <= i < ts.len() && #[trigger] occ(ts[i]).contains(x);
            if i > 0 {
                assert(ts.drop_first()[i - 1] == ts[i]);
            }
        }
        if b.contains(x) {
            let i = choose|i: int| 0 <= i < ts.drop_first().len() && #[trigger] occ(ts.drop_first()[i]).contains(x);
            assert(ts.drop_first()[i] == ts[i + 1]);
        }
    }
}

/// Concatenation contains what either part contains.
pub proof fn lemma_concat_contains(a: Seq<u32>, b: Seq<u32>, x: u32)
    ensures
        (a + b).contains(x) <==> a.contains(x) || b.contains(x),
{
    if (a + b).contains(x) {
        let k = choose|k: int| 0 <= k < (a + b).len() && (a + b)[k] == x;
        if k >= a.len() {
            assert(b[k - a.len()] == x);
        }
    }
    if a.contains(x) {
        let k = choose|k: int| 0 <= k < a.len() && a[k] == x;
        assert((a + b)[k] == x);
    }
    if b.contains(x) {
        let k = choose|k: int| 0 <= k < b.len() && b[k] == x;
        assert((a + b)[k + a.len()] == x);
    }
}

/// `mr(t) <= bound` exactly when every variable of `t` ranks below `bound`.
pub proof fn lemma_mr_bound(rank: spec_fn(u32) -> nat, t: TyV, bound: nat)
    ensures
        mr(rank, t) <= bound <==> (forall|w: u32| occ(t).contains(w) ==> rank(w) + 1 <= bound),
    decreases t, 0nat,
{
    match t {
        TyV::Var(id) => {
            assert(occ(t) == seq![id]);
            assert(seq![id][0] == id);
            assert(seq![id].contains(id));
            assert(occ(t).contains(id));
            assert forall|w: u32| occ(t).contains(w) implies w == id by {
                let k = choose|k: int| 0 <= k < occ(t).len() && occ(t)[k] == w;
                assert(k == 0);
            }
            assert(mr(rank, t) == rank(id) + 1);
            if mr(rank, t) <= bound {
                assert forall|w: u32| occ(t).contains(w) implies rank(w) + 1 <= bound by {
                    assert(w == id);
                }
            }
        }
        TyV::Fun(ps, r) => {
            lemma_mr_list_bound(rank, ps, bound);
            lemma_mr_bound(rank, *r, bound);
            let a = occ_list(ps);
            let b = occ(*r);
            assert(occ(t) == a + b);
            if forall|w: u32| occ(t).contains(w) ==> rank(w) + 1 <= bound {
                assert forall|w: u32| a.contains(w) implies rank(w) + 1 <= bound by {
                    lemma_concat_contains(a, b, w);
                    assert(occ(t).contains(w));
                }
                assert forall|w: u32| b.contains(w) implies rank(w) + 1 <= bound by {
                    lemma_concat_contains(a, b, w);
                    assert(occ(t).contains(w));
                }
            }
            if mr(rank, t) <= bound {
                assert forall|w: u32| occ(t).contains(w) implies rank(w) + 1 <= bound by {
                    lemma_concat_contains(a, b, w);
                }
            }
        }
        TyV::ADT(_, args) => {
            lemma_mr_list_bound(rank, args, bound);
            assert(occ(t) == occ_list(args));
            assert(mr(rank, t) == mr_list(rank, args));
        }
        TyV::Option(i) => {
            lemma_mr_bound(rank, *i, bound);
            assert(occ(t) == occ(*i));
        }
        TyV::List(i) => {
            lemma_mr_bound(rank, *i, bound);
            assert(occ(t) == occ(*i));
        }
        TyV::Result(a, b) => {
            lemma_mr_bound(rank, *a, bound);
            lemma_mr_bound(rank, *b, bound);
            let x = occ(*a);
            let y = occ(*b);
            assert(occ(t) == x + y);
            if forall|w: u32| occ(t).contains(w) ==> rank(w) + 1 <= bound {
                assert forall|w: u32| x.contains(w) implies rank(w) + 1 <= bound by {
                    lemma_concat_contains(x, y, w);
                    assert(occ(t).contains(w));
                }
                assert forall|w: u32| y.contains(w) implies rank(w) + 1 <= bound by {
                    lemma_concat_contains(x, y, w);
                    assert(occ(t).contains(w));
                }
            }
            if mr(rank, t) <= bound {
                assert forall|w: u32| occ(t).contains(w) implies rank(w) + 1 <= bound by {
                    lemma_concat_contains(x, y, w);
                }
            }
        }
        _ => {
            assert(occ(t) =~= Seq::<u32>::empty());
        }
    }
}

/// `mr_list(ts) <= bound` exactly when every variable of `ts` ranks below `bound`.
pub proof fn lemma_mr_list_bound(rank: spec_fn(u32) -> nat, ts: Seq<TyV>, bound: nat)
    ensures
        mr_list(rank, ts) <= bound <==> (forall|w: u32| occ_list(ts).contains(w) ==> rank(w) + 1 <= bound),
    decreases ts, 1nat,
{
    if ts.len() > 0 {
        lemma_mr_bound(rank, ts[0], bound);
        lemma_mr_list_bound(rank, ts.drop_first(), bound);
        assert forall|w: u32| #![trigger occ_list(ts).contains(w)] true implies (occ_list(ts).contains(w) <==> occ(ts[0]).contains(w) || occ_list(ts.drop_first()).contains(w)) by {
            lemma_concat_contains(occ(ts[0]), occ_list(ts.drop_first()), w);
        }
        if mr_list(rank, ts) <= bound {
            assert forall|w: u32| occ_list(ts).contains(w) implies rank(w) + 1 <= bound by {
                lemma_concat_contains(occ(ts[0]), occ_list(ts.drop_first()), w);
            }
        }
        if forall|w: u32| occ_list(ts).contains(w) ==> rank(w) + 1 <= bound {
            assert forall|w: u32| occ(ts[0]).contains(w) implies rank(w) + 1 <= bound by {
                lemma_concat_contains(occ(ts[0]), occ_list(ts.drop_first()), w);
                assert(occ_list(ts).contains(w));
            }
            assert forall|w: u32| occ_list(ts.drop_first()).contains(w) implies rank(w) + 1 <= bound by {
                lemma_concat_contains(occ(ts[0]), occ_list(ts.drop_first()), w);
                assert(occ_list(ts).contains(w));
            }
        }
    } else {
        assert(occ_list(ts) =~= Seq::<u32>::empty());
    }
}

/// The occurrences of `seq![a] + rest`.
pub proof fn lemma_occ_list_cons(a: TyV, rest: Seq<TyV>)
    ensures
        occ_list(seq![a] + rest) == occ(a) + occ_list(rest),
{
    let s = seq![a] + rest;
    assert(s[0] == a);
    assert(s.drop_first() =~= rest);
}

/// A variable that occurs in `t` resolves to something whose variables
/// all occur in the resolution of `t`.
pub proof fn lemma_occ_reach(m: Map<u32, TyV>, rank: spec_fn(u32) -> nat, t: TyV, w: u32, x: u32)
    requires
        twf(m, rank),
        occ(t).contains(w),
        occ(dres(m, rank, TyV::Var(w))).contains(x),
    ensures
        occ(dres(m, rank, t)).contains(x),
    decreases t, 0nat,
{
    match t {
        TyV::Var(id) => {
            assert(occ(t) == seq![id]);
            assert(seq![id][0] == id);
        }
        TyV::Fun(ps, r) => {
            lemma_concat_contains(occ_list(ps), occ(*r), w);
            lemma_concat_contains(occ_list(dres_list(m, rank, ps)), occ(dres(m, rank, *r)), x);
            if occ_list(ps).contains(w) {
                lemma_occ_list_reach(m, rank, ps, w, x);
            } else {
                lemma_occ_reach(m, rank, *r, w, x);
            }
        }
        TyV::ADT(_, args) => {
            lemma_occ_list_reach(m, rank, args, w, x);
        }
        TyV::Option(i) => {
            lemma_occ_reach(m, rank, *i, w, x);
        }
        TyV::List(i) => {
            lemma_occ_reach(m, rank, *i, w, x);
        }
        TyV::Result(a, b) => {
            lemma_concat_contains(occ(*a), occ(*b), w);
            lemma_concat_contains(occ(dres(m, rank, *a)), occ(dres(m, rank, *b)), x);
            if occ(*a).contains(w) {
                lemma_occ_reach(m, rank, *a, w, x);
            } else {
                lemma_occ_reach(m, rank, *b, w, x);
            }
        }
        _ => {
            assert(occ(t) =~= Seq::<u32>::empty());
        }
    }
}

/// `lemma_occ_reach` for lists.
pub proof fn lemma_occ_list_reach(m: Map<u32, TyV>, rank: spec_fn(u32) -> nat, ts: Seq<TyV>, w: u32, x: u32)
    requires
        twf(m, rank),
        occ_list(ts).contains(w),
        occ(dres(m, rank, TyV::Var(w))).contains(x),
    ensures
        occ_list(dres_list(m, rank, ts)).contains(x),
    decreases ts, 1nat,
{
    if ts.len() == 0 {
        assert(occ_list(ts) =~= Seq::<u32>::empty());
    } else {
        lemma_concat_contains(occ(ts[0]), occ_list(ts.drop_first()), w);
        lemma_occ_list_cons(dres(m, rank, ts[0]), dres_list(m, rank, ts.drop_first()));
        lemma_concat_contains(occ(dres(m, rank, ts[0])), occ_list(dres_list(m, rank, ts.drop_first())), x);
        if occ(ts[0]).contains(w) {
            lemma_occ_reach(m, rank, ts[0], w, x);
        } else {
            lemma_occ_list_reach(m, rank, ts.drop_first(), w, x);
        }
    }
}

/// The ranks after binding `v` to `o`: every variable whose resolution
/// mentions `v` moves up by `mr(o)`.
pub open spec fn lifted_rank(m: Map<u32, TyV>, rank: spec_fn(u32) -> nat, v: u32, o: TyV) -> spec_fn(u32) -> nat {
    |x: u32| if occ(dres(m, rank, TyV::Var(x))).contains(v) { rank(x) + mr(rank, o) } else { rank(x) }
}

/// The occurs check keeps the table free of cycles: binding an unbound `v`
/// to a type whose resolution does not mention `v` yields a table ordered by
/// the lifted ranks.
pub proof fn lemma_insert_wf(m: Map<u32, TyV>, rank: spec_fn(u32) -> nat, v: u32, o: TyV)
    requires
        twf(m, rank),
        !m.contains_key(v),
        !occ(dres(m, rank, o)).contains(v),
    ensures
        twf(m.insert(v, o), lifted_rank(m, rank, v, o)),
{
    let rank2 = lifted_rank(m, rank, v, o);
    let m2 = m.insert(v, o);
    let d = mr(rank, o);
    assert(dres(m, rank, TyV::Var(v)) == TyV::Var(v));
    assert(occ(TyV::Var(v)) == seq![v]);
    assert(seq![v][0] == v);
    assert(rank2(v) == rank(v) + d);
    assert forall|k: u32| #[trigger] m2.contains_key(k) implies mr(rank2, m2[k]) <= rank2(k) by {
        if k == v {
            lemma_mr_bound(rank, o, d);
            assert forall|w: u32| occ(o).contains(w) implies rank2(w) + 1 <= rank2(k) by {
                if occ(dres(m, rank, TyV::Var(w))).contains(v) {
                    lemma_occ_reach(m, rank, o, w, v);
                }
            }
            lemma_mr_bound(rank2, o, rank2(k));
        } else {
            let b = m[k];
            assert(mr(rank, b) <= rank(k));
            lemma_mr_bound(rank, b, rank(k));
            assert(dres(m, rank, TyV::Var(k)) == dres(m, rank, b));
            assert forall|w: u32| occ(b).contains(w) implies rank2(w) + 1 <= rank2(k) by {
                if occ(dres(m, rank, TyV::Var(w))).contains(v) {
                    lemma_occ_reach(m, rank, b, w, v);
                }
            }
            lemma_mr_bound(rank2, b, rank2(k));
        }
    }
}

/// Every binding of `m` is kept, unchanged, in `m2`.
pub open spec fn extends(m: Map<u32, TyV>, m2: Map<u32, TyV>) -> bool {
    forall|k: u32| #[trigger] m.contains_key(k) ==> m2.contains_key(k) && m2[k] == m[k]
}

/// Resolving under a larger table absorbs resolving under a smaller one.
pub proof fn lemma_extend(m: Map<u32, TyV>, rank: spec_fn(u32) -> nat, m2: Map<u32, TyV>, rank2: spec_fn(u32) -> nat, t: TyV)
    requires
        twf(m, rank),
        twf(m2, rank2),
        extends(m, m2),
    ensures
        dres(m2, rank2, t) == dres(m2, rank2, dres(m, rank, t)),
    decreases mr(rank, t), t, 0nat,
{
    match t {
        TyV::Var(id) => {
            if m.contains_key(id) {
                assert(mr(rank, m[id]) <= rank(id));
                assert(m2.contains_key(id));
                lemma_extend(m, rank, m2, rank2, m[id]);
            }
        }
        TyV::Fun(ps, r) => {
            lemma_extend_list(m, rank, m2, rank2, ps);
            lemma_extend(m, rank, m2, rank2, *r);
        }
        TyV::ADT(_, args) => {
            lemma_extend_list(m, rank, m2, rank2, args);
        }
        TyV::Option(i) => {
            lemma_extend(m, rank, m2, rank2, *i);
        }
        TyV::List(i) => {
            lemma_extend(m, rank, m2, rank2, *i);
        }
        TyV::Result(a, b) => {
            lemma_extend(m, rank, m2, rank2, *a);
            lemma_extend(m, rank, m2, rank2, *b);
        }
        _ => {}
    }
}

/// `lemma_extend` for lists.
pub proof fn lemma_extend_list(m: Map<u32, TyV>, rank: spec_fn(u32) -> nat, m2: Map<u32, TyV>, rank2: spec_fn(u32) -> nat, ts: Seq<TyV>)
    requires
        twf(m, rank),
        twf(m2, rank2),
        extends(m, m2),
    ensures
        dres_list(m2, rank2, ts) == dres_list(m2, rank2, dres_list(m, rank, ts)),
    decreases mr_list(rank, ts), ts, 1nat,
{
    if ts.len() > 0 {
        lemma_extend(m, rank, m2, rank2, ts[0]);
        lemma_extend_list(m, rank, m2, rank2, ts.drop_first());
        let d = dres_list(m, rank, ts);
        assert(d[0] == dres(m, rank, ts[0]));
        assert(d.drop_first() =~= dres_list(m, rank, ts.drop_first()));
    }
}

/// The number of constructors in a type.
pub open spec fn tsize(t: TyV) -> nat
    decreases t, 0nat,
{
    match t {
        TyV::Fun(ps, r) => 1 + tsize_list(ps) + tsize(*r),
        TyV::ADT(_, args) => 1 + tsize_list(args),
        TyV::Option(i) => 1 + tsize(*i),
        TyV::List(i) => 1 + tsize(*i),
        TyV::Result(a, b) => 1 + tsize(*a) + tsize(*b),
        _ => 1,
    }
}

/// The number of constructors in a list of types.
pub open spec fn tsize_list(ts: Seq<TyV>) -> nat
    decreases ts, 1nat,
{
    if ts.len() == 0 { 0 } else { tsize(ts[0]) + tsize_list(ts.drop_first()) }
}

/// An element is no bigger than its list.
pub proof fn lemma_tsize_list_elem(ts: Seq<TyV>, i: int)
    requires
        0 <= i < ts.len(),
    ensures
        tsize(ts[i]) <= tsize_list(ts),
    decreases ts.len(),
{
    if i > 0 {
        lemma_tsize_list_elem(ts.drop_first(), i - 1);
        assert(ts.drop_first()[i - 1] == ts[i]);
    }
}

/// Two shallowly resolved types whose heads cannot be made equal: different
/// constructors, functions of different arities, or ADTs of different names
/// or arities. Variables clash with nothing.
pub open spec fn heads_clash(a: TyV, b: TyV) -> bool {
    match (a, b) {
        (TyV::Var(_), _) => false,
        (_, TyV::Var(_)) => false,
        (TyV::Int, TyV::Int) => false,
        (TyV::Float, TyV::Float) => false,
        (TyV::Bool, TyV::Bool) => false,
        (TyV::String, TyV::String) => false,
        (TyV::Unit, TyV::Unit) => false,
        (TyV::Fun(p1, _), TyV::Fun(p2, _)) => p1.len() != p2.len(),
        (TyV::ADT(n1, a1), TyV::ADT(n2, a2)) => n1 != n2 || a1.len() != a2.len(),
        (TyV::Option(_), TyV::Option(_)) => false,
        (TyV::List(_), TyV::List(_)) => false,
        (TyV::Result(_, _), TyV::Result(_, _)) => false,
        _ => true,
    }
}

/// A shallow type with nothing inside to unify: a base type or a variable.
pub open spec fn is_leaf(a: TyV) -> bool {
    a is Int || a is Float || a is Bool || a is String || a is Unit || a is Var
}

impl UnificationTable {
    /// Occurs check: does `var` appear in the deep resolution of `ty`?
    fn occurs_in(&self, var: u32, ty: &Type) -> (r: bool)
        ensures
            r == occ(self.resolved(ty@)).contains(var),
        decreases mr(self.ranks(), ty@), ty@,
    {
        proof {
            use_type_invariant(self);
            lemma_sres(self.map(), self.ranks(), ty@);
        }
        let t = self.resolve(ty);
        let ghost m = self.map();
        let ghost rk = self.ranks();
        proof {
            if !(ty@ matches TyV::Var(id) && m.contains_key(id)) {
                assert(sres(m, rk, ty@) == ty@);
            }
        }
        match &t {
            Type::Var(id) => {
                proof {
                    assert(t@ == TyV::Var(id.0));
                    assert(dres(m, rk, t@) == t@);
                    assert(occ(t@) == seq![id.0]);
                    assert(seq![id.0][0] == id.0);
                    if occ(t@).contains(var) {
                        let k = choose|k: int| 0 <= k < occ(t@).len() && occ(t@)[k] == var;
                        assert(k == 0);
                    }
                }
                id.0 == var
            }
            Type::Fun(params, ret) => {
                let ghost ps = tview_list(params@);
                proof {
                    lemma_tview_list(params@);
                    lemma_dres_list(m, rk, ps);
                    lemma_occ_list_contains(dres_list(m, rk, ps), var);
                    lemma_concat_contains(occ_list(dres_list(m, rk, ps)), occ(dres(m, rk, ret@)), var);
                }
                let mut i: usize = 0;
                while i < params.len()
                    invariant
                        i <= params@.len(),
                        m == self.map(),
                        rk == self.ranks(),
                        twf(m, rk),
                        ps == tview_list(params@),
                        t@ == TyV::Fun(ps, Box::new(ret@)),
                        ps.len() == params@.len(),
                        forall|k: int| 0 <= k < params@.len() ==> #[trigger] ps[k] == tview(params@[k]),
                        forall|k: int| 0 <= k < ps.len() ==> #[trigger] dres_list(m, rk, ps)[k] == dres(m, rk, ps[k]),
                        dres_list(m, rk, ps).len() == ps.len(),
                        mr(rk, t@) <= mr(rk, ty@),
                        (ty@ matches TyV::Var(id) && m.contains_key(id)) ==> mr(rk, t@) < mr(rk, ty@),
                        !(ty@ matches TyV::Var(id) && m.contains_key(id)) ==> t@ == ty@,
                        dres(m, rk, ty@) == dres(m, rk, t@),
                        forall|k: int| 0 <= k < i ==> !occ(dres(m, rk, #[trigger] ps[k])).contains(var),
                    decreases params@.len() - i,
                {
                    proof {
                        lemma_mr_list_elem(rk, ps, i as int);
                        assert(ps[i as int] == tview(params@[i as int]));
                    }
                    if self.occurs_in(var, &params[i]) {
                        proof {
                            assert(occ(dres_list(m, rk, ps)[i as int]).contains(var));
                            lemma_occ_list_contains(dres_list(m, rk, ps), var);
                            lemma_concat_contains(occ_list(dres_list(m, rk, ps)), occ(dres(m, rk, ret@)), var);
                        }
                        return true;
                    }
                    i = i + 1;
                }
                let r = self.occurs_in(var, ret);
                proof {
                    if occ_list(dres_list(m, rk, ps)).contains(var) {
                        let k = choose|k: int| 0 <= k < dres_list(m, rk, ps).len() && #[trigger] occ(dres_list(m, rk, ps)[k]).contains(var);
                        assert(occ(dres(m, rk, ps[k])).contains(var));
                    }
                }
                r
            }
            Type::ADT(_, args) => {
                let ghost ps = tview_list(args@);
                proof {
                    lemma_tview_list(args@);
                    lemma_dres_list(m, rk, ps);
                    lemma_occ_list_contains(dres_list(m, rk, ps), var);
                }
                let mut i: usize = 0;
                while i < args.len()
                    invariant
                        i <= args@.len(),
                        m == self.map(),
                        rk == self.ranks(),
                        twf(m, rk),
                        ps == tview_list(args@),
                        t@ matches TyV::ADT(_, a) && a == ps,
                        ps.len() == args@.len(),
                        forall|k: int| 0 <= k < args@.len() ==> #[trigger] ps[k] == tview(args@[k]),
                        forall|k: int| 0 <= k < ps.len() ==> #[trigger] dres_list(m, rk, ps)[k] == dres(m, rk, ps[k]),
                        dres_list(m, rk, ps).len() == ps.len(),
                        mr(rk, t@) <= mr(rk, ty@),
                        (ty@ matches TyV::Var(id) && m.contains_key(id)) ==> mr(rk, t@) < mr(rk, ty@),
                        !(ty@ matches TyV::Var(id) && m.contains_key(id)) ==> t@ == ty@,
                        dres(m, rk, ty@) == dres(m, rk, t@),
                        forall|k: int| 0 <= k < i ==> !occ(dres(m, rk, #[trigger] ps[k])).contains(var),
                    decreases args@.len() - i,
                {
                    proof {
                        lemma_mr_list_elem(rk, ps, i as int);
                        assert(ps[i as int] == tview(args@[i as int]));
                    }
                    if self.occurs_in(var, &args[i]) {
                        proof {
                            assert(occ(dres_list(m, rk, ps)[i as int]).contains(var));
                            lemma_occ_list_contains(dres_list(m, rk, ps), var);
                        }
                        return true;
                    }
                    i = i + 1;
                }
                proof {
                    if occ_list(dres_list(m, rk, ps)).contains(var) {
                        let k = choose|k: int| 0 <= k < dres_list(m, rk, ps).len() && #[trigger] occ(dres_list(m, rk, ps)[k]).contains(var);
                        assert(occ(dres(m, rk, ps[k])).contains(var));
                    }
                }
                false
            }
            Type::Option(inner) => self.occurs_in(var, inner),
            Type::List(inner) => self.occurs_in(var, inner),
            Type::Result(ok, err) => {
                proof {
                    lemma_concat_contains(occ(dres(m, rk, ok@)), occ(dres(m, rk, err@)), var);
                }
                self.occurs_in(var, ok) || self.occurs_in(var, err)
            }
            _ => {
                proof {
                    assert(dres(m, rk, t@) == t@);
                    assert(occ(t@) =~= Seq::<u32>::empty());
                }
                false
            }
        }
    }
}

/// Two types with the same resolution keep the same resolution in any
/// larger table.
pub proof fn lemma_same_after(m0: Map<u32, TyV>, rk0: spec_fn(u32) -> nat, m: Map<u32, TyV>, rk: spec_fn(u32) -> nat, t: TyV, a: TyV)
    requires
        twf(m0, rk0),
        twf(m, rk),
        extends(m0, m),
        dres(m0, rk0, t) == dres(m0, rk0, a),
    ensures
        dres(m, rk, t) == dres(m, rk, a),
{
    lemma_extend(m0, rk0, m, rk, t);
    lemma_extend(m0, rk0, m, rk, a);
}

impl UnificationTable {
    /// Records the binding `id := other`.
    fn bind_var(&mut self, id: u32, other: Type)
        requires
            !old(self).map().contains_key(id),
            !occ(old(self).resolved(other@)).contains(id),
        ensures
            final(self).map() == old(self).map().insert(id, other@),
            final(self).ranks() == lifted_rank(old(self).map(), old(self).ranks(), id, other@),
            final(self).count() == old(self).count() + 1,
            final(self).next() == old(self).next(),
            extends(old(self).map(), final(self).map()),
    {
        proof {
            use_type_invariant(&*self);
            lemma_insert_wf(self.map(), self.ranks(), id, other@);
            lemma_bmap_index(self.bindings@, id);
        }
        let ghost m0 = self.map();
        let ghost r2 = lifted_rank(self.map(), self.ranks(), id, other@);
        let mut bs: Vec<(u32, Type)> = Vec::new();
        std::mem::swap(&mut bs, &mut self.bindings);
        self.rank = Ghost(r2);
        let ghost old_bs = bs@;
        bs.push((id, other));
        proof {
            assert(bs@.drop_last() == old_bs);
            assert(bmap(bs@) == m0.insert(id, bs@.last().1@));
            assert(keys_unique(bs@)) by {
                assert forall|i: int, j: int| 0 <= i < j < bs@.len() implies #[trigger] bs@[i].0 != #[trigger] bs@[j].0 by {
                    if j == bs@.len() - 1 {
                        assert(old_bs[i].0 != id);
                    } else {
                        assert(old_bs[i] == bs@[i] && old_bs[j] == bs@[j]);
                    }
                }
            }
        }
        self.bindings = bs;
    }

    /// An error reporting the two (shallowly resolved) types.
    fn mismatch(a: &Type, b: &Type, span: Span, is_infinite: bool) -> (e: UnifyError)
        ensures
            e.expected@ == a@,
            e.found@ == b@,
            e.span == span,
            e.is_infinite == is_infinite,
    {
        UnifyError { expected: a.duplicate(), found: b.duplicate(), span, is_infinite }
    }

    /// Unify two types. On success, records bindings under which both types
    /// resolve to the same type. On failure, returns an error; bindings made
    /// before the conflict was found are kept.
    pub fn unify(&mut self, t1: &Type, t2: &Type, span: Span) -> (r: Result<(), UnifyError>)
        ensures
            old(self).wf(),
            final(self).count() >= old(self).count(),
            final(self).count() == old(self).count() ==> final(self).map() == old(self).map()
                && final(self).ranks() == old(self).ranks(),
            extends(old(self).map(), final(self).map()),
            final(self).next() == old(self).next(),
            r is Ok ==> final(self).resolved(t1@) == final(self).resolved(t2@),
            final(self).wf(),
            r matches Err(e) ==> e.span == span,
            heads_clash(old(self).shallow(t1@), old(self).shallow(t2@)) ==> (r matches Err(e) && !e.is_infinite
                && e.expected@ == old(self).shallow(t1@) && e.found@ == old(self).shallow(t2@)
                && final(self).map() == old(self).map()),
            is_leaf(old(self).shallow(t1@)) && old(self).shallow(t1@) == old(self).shallow(t2@)
                ==> r is Ok && final(self).map() == old(self).map(),
            old(self).resolved(t1@) == old(self).resolved(t2@) ==> r is Ok && final(self).count() == old(self).count(),
            ({
                let a = old(self).shallow(t1@);
                let b = old(self).shallow(t2@);
                a is Var && a != b ==> if occ(old(self).resolved(b)).contains(a->Var_0) {
                    (r matches Err(e) && e.is_infinite && e.expected@ == a && e.found@ == b
                        && final(self).map() == old(self).map())
                } else {
                    r is Ok && final(self).map() == old(self).map().insert(a->Var_0, b)
                }
            }),
            ({
                let a = old(self).shallow(t1@);
                let b = old(self).shallow(t2@);
                !(a is Var) && b is Var ==> if occ(old(self).resolved(a)).contains(b->Var_0) {
                    (r matches Err(e) && e.is_infinite && e.expected@ == a && e.found@ == b
                        && final(self).map() == old(self).map())
                } else {
                    r is Ok && final(self).map() == old(self).map().insert(b->Var_0, a)
                }
            }),
        decreases usize::MAX - old(self).count(), tsize(old(self).resolved(t1@)) + tsize(old(self).resolved(t2@)),
    {
        proof { use_type_invariant(&*self); }
        let a = self.resolve(t1);
        let b = self.resolve(t2);
        let ghost m0 = self.map();
        let ghost rk0 = self.ranks();
        let ghost c0 = self.count();
        proof {
            lemma_sres(m0, rk0, t1@);
            lemma_sres(m0, rk0, t2@);
            assert(c0 <= usize::MAX) by {
                assert(self.bindings@.len() == self.bindings.len());
            }
        }
        match (&a, &b) {
            (Type::Int, Type::Int) => Ok(()),
            (Type::Float, Type::Float) => Ok(()),
            (Type::Bool, Type::Bool) => Ok(()),
            (Type::String, Type::String) => Ok(()),
            (Type::Unit, Type::Unit) => Ok(()),
            (Type::Var(x), Type::Var(y)) if x.0 == y.0 => Ok(()),
            (Type::Var(id), _) => {
                if self.occurs_in(id.0, &b) {
                    Err(Self::mismatch(&a, &b, span, true))
                } else {
                    proof { lemma_sres(m0, rk0, b@); }
                    self.bind_var(id.0, b.duplicate());
                    proof {
                        use_type_invariant(&*self);
                        assert(dres(m0, rk0, a@) == a@);
                        lemma_same_after(m0, rk0, self.map(), self.ranks(), t1@, a@);
                        lemma_same_after(m0, rk0, self.map(), self.ranks(), t2@, b@);
                        assert(self.map().contains_key(id.0) && self.map()[id.0] == b@);
                        assert(dres(self.map(), self.ranks(), a@) == dres(self.map(), self.ranks(), b@));
                    }
                    Ok(())
                }
            }
            (_, Type::Var(id)) => {
                if self.occurs_in(id.0, &a) {
                    Err(Self::mismatch(&a, &b, span, true))
                } else {
                    self.bind_var(id.0, a.duplicate());
                    proof {
                        use_type_invariant(&*self);
                        assert(dres(m0, rk0, b@) == b@);
                        lemma_same_after(m0, rk0, self.map(), self.ranks(), t1@, a@);
                        lemma_same_after(m0, rk0, self.map(), self.ranks(), t2@, b@);
                        assert(self.map().contains_key(id.0) && self.map()[id.0] == a@);
                        assert(dres(self.map(), self.ranks(), b@) == dres(self.map(), self.ranks(), a@));
                    }
                    Ok(())
                }
            }
            (Type::Fun(p1, r1), Type::Fun(p2, r2)) => {
                if p1.len() != p2.len() {
                    proof {
                        lemma_tview_list(p1@);
                        lemma_tview_list(p2@);
                        lemma_dres_list(m0, rk0, tview_list(p1@));
                        lemma_dres_list(m0, rk0, tview_list(p2@));
                        assert(dres(m0, rk0, a@) != dres(m0, rk0, b@));
                    }
                    return Err(Self::mismatch(&a, &b, span, false));
                }
                let ghost ps1 = tview_list(p1@);
                let ghost ps2 = tview_list(p2@);
                proof {
                    lemma_tview_list(p1@);
                    lemma_tview_list(p2@);
                    lemma_dres_list(m0, rk0, ps1);
                    lemma_dres_list(m0, rk0, ps2);
                }
                let mut i: usize = 0;
                while i < p1.len()
                    invariant
                        i <= p1@.len(),
                        p1@.len() == p2@.len(),
                        ps1 == tview_list(p1@),
                        ps2 == tview_list(p2@),
                        ps1.len() == p1@.len(),
                        ps2.len() == p2@.len(),
                        forall|k: int| 0 <= k < p1@.len() ==> #[trigger] ps1[k] == tview(p1@[k]),
                        forall|k: int| 0 <= k < p2@.len() ==> #[trigger] ps2[k] == tview(p2@[k]),
                        twf(m0, rk0),
                        dres_list(m0, rk0, ps1).len() == ps1.len(),
                        dres_list(m0, rk0, ps2).len() == ps2.len(),
                        forall|k: int| 0 <= k < ps1.len() ==> #[trigger] dres_list(m0, rk0, ps1)[k] == dres(m0, rk0, ps1[k]),
                        forall|k: int| 0 <= k < ps2.len() ==> #[trigger] dres_list(m0, rk0, ps2)[k] == dres(m0, rk0, ps2[k]),
                        a@ == TyV::Fun(ps1, Box::new(r1@)),
                        a@ == old(self).shallow(t1@),
                        b@ == old(self).shallow(t2@),
                        dres(m0, rk0, t1@) == dres(m0, rk0, t2@) ==> self.count() == c0,
                        b@ == TyV::Fun(ps2, Box::new(r2@)),
                        dres(m0, rk0, t1@) == dres(m0, rk0, a@),
                        dres(m0, rk0, t2@) == dres(m0, rk0, b@),
                        c0 == old(self).count(),
                        m0 == old(self).map(),
                        rk0 == old(self).ranks(),
                        c0 <= usize::MAX,
                        self.count() >= c0,
                        self.count() == c0 ==> self.map() == m0 && self.ranks() == rk0,
                        extends(m0, self.map()),
                        self.next() == old(self).next(),
                        twf(self.map(), self.ranks()),
                        forall|k: int| 0 <= k < i ==> dres(self.map(), self.ranks(), #[trigger] ps1[k]) == dres(self.map(), self.ranks(), ps2[k]),
                    decreases p1@.len() - i,
                {
                    proof {
                        lemma_tsize_list_elem(dres_list(m0, rk0, ps1), i as int);
                        lemma_tsize_list_elem(dres_list(m0, rk0, ps2), i as int);
                        assert(ps1[i as int] == tview(p1@[i as int]));
                        assert(ps2[i as int] == tview(p2@[i as int]));
                        assert(self.bindings@.len() == self.bindings.len());
                        if self.count() == c0 {
                            assert(tsize(dres(m0, rk0, a@)) > tsize(dres(m0, rk0, ps1[i as int])));
                            assert(tsize(dres(m0, rk0, b@)) > tsize(dres(m0, rk0, ps2[i as int])));
                            assert(self.resolved(ps1[i as int]) == dres(m0, rk0, ps1[i as int]));
                            assert(self.resolved(ps2[i as int]) == dres(m0, rk0, ps2[i as int]));
                        }
                        if dres(m0, rk0, t1@) == dres(m0, rk0, t2@) {
                            assert(dres_list(m0, rk0, ps1)[i as int] == dres_list(m0, rk0, ps2)[i as int]);
                        }
                    }
                    let ghost mp = self.map();
                    let ghost rp = self.ranks();
                    match self.unify(&p1[i], &p2[i], span) {
                        Err(e) => { return Err(e); }
                        Ok(()) => {}
                    }
                    proof {
                        use_type_invariant(&*self);
                        assert forall|k: int| 0 <= k < i + 1 implies dres(self.map(), self.ranks(), #[trigger] ps1[k]) == dres(self.map(), self.ranks(), ps2[k]) by {
                            if k < i {
                                lemma_same_after(mp, rp, self.map(), self.ranks(), ps1[k], ps2[k]);
                            }
                        }
                    }
                    i = i + 1;
                }
                let ghost mp = self.map();
                let ghost rp = self.ranks();
                proof {
                    assert(self.bindings@.len() == self.bindings.len());
                    if self.count() == c0 {
                        assert(tsize(dres(m0, rk0, r1@)) < tsize(dres(m0, rk0, a@)));
                        assert(tsize(dres(m0, rk0, r2@)) < tsize(dres(m0, rk0, b@)));
                    }
                }
                let r = self.unify(r1, r2, span);
                proof {
                    use_type_invariant(&*self);
                    if r is Ok {
                        let m = self.map();
                        let rk = self.ranks();
                        assert forall|k: int| 0 <= k < ps1.len() implies dres(m, rk, #[trigger] ps1[k]) == dres(m, rk, ps2[k]) by {
                            lemma_same_after(mp, rp, m, rk, ps1[k], ps2[k]);
                        }
                        lemma_dres_list(m, rk, ps1);
                        lemma_dres_list(m, rk, ps2);
                        assert(dres_list(m, rk, ps1) =~= dres_list(m, rk, ps2));
                        lemma_same_after(m0, rk0, m, rk, t1@, a@);
                        lemma_same_after(m0, rk0, m, rk, t2@, b@);
                    }
                }
                r
            }
            (Type::ADT(n1, a1), Type::ADT(n2, a2)) => {
                if *n1 != *n2 || a1.len() != a2.len() {
                    proof {
                        lemma_tview_list(a1@);
                        lemma_tview_list(a2@);
                        lemma_dres_list(m0, rk0, tview_list(a1@));
                        lemma_dres_list(m0, rk0, tview_list(a2@));
                        assert(dres(m0, rk0, a@) != dres(m0, rk0, b@));
                    }
                    return Err(Self::mismatch(&a, &b, span, false));
                }
                let ghost ps1 = tview_list(a1@);
                let ghost ps2 = tview_list(a2@);
                proof {
                    lemma_tview_list(a1@);
                    lemma_tview_list(a2@);
                    lemma_dres_list(m0, rk0, ps1);
                    lemma_dres_list(m0, rk0, ps2);
                }
                let mut i: usize = 0;
                while i < a1.len()
                    invariant
                        i <= a1@.len(),
                        a1@.len() == a2@.len(),
                        ps1 == tview_list(a1@),
                        ps2 == tview_list(a2@),
                        ps1.len() == a1@.len(),
                        ps2.len() == a2@.len(),
                        forall|k: int| 0 <= k < a1@.len() ==> #[trigger] ps1[k] == tview(a1@[k]),
                        forall|k: int| 0 <= k < a2@.len() ==> #[trigger] ps2[k] == tview(a2@[k]),
                        twf(m0, rk0),
                        dres_list(m0, rk0, ps1).len() == ps1.len(),
                        dres_list(m0, rk0, ps2).len() == ps2.len(),
                        forall|k: int| 0 <= k < ps1.len() ==> #[trigger] dres_list(m0, rk0, ps1)[k] == dres(m0, rk0, ps1[k]),
                        forall|k: int| 0 <= k < ps2.len() ==> #[trigger] dres_list(m0, rk0, ps2)[k] == dres(m0, rk0, ps2[k]),
                        a@ == TyV::ADT(n1@, ps1),
                        a@ == old(self).shallow(t1@),
                        b@ == old(self).shallow(t2@),
                        dres(m0, rk0, t1@) == dres(m0, rk0, t2@) ==> self.count() == c0,
                        b@ == TyV::ADT(n2@, ps2),
                        n1@ == n2@,
                        dres(m0, rk0, t1@) == dres(m0, rk0, a@),
                        dres(m0, rk0, t2@) == dres(m0, rk0, b@),
                        c0 == old(self).count(),
                        m0 == old(self).map(),
                        rk0 == old(self).ranks(),
                        c0 <= usize::MAX,
                        self.count() >= c0,
                        self.count() == c0 ==> self.map() == m0 && self.ranks() == rk0,
                        extends(m0, self.map()),
                        self.next() == old(self).next(),
                        twf(self.map(), self.ranks()),
                        forall|k: int| 0 <= k < i ==> dres(self.map(), self.ranks(), #[trigger] ps1[k]) == dres(self.map(), self.ranks(), ps2[k]),
                    decreases a1@.len() - i,
                {
                    proof {
                        lemma_tsize_list_elem(dres_list(m0, rk0, ps1), i as int);
                        lemma_tsize_list_elem(dres_list(m0, rk0, ps2), i as int);
                        assert(ps1[i as int] == tview(a1@[i as int]));
                        assert(ps2[i as int] == tview(a2@[i as int]));
                        assert(self.bindings@.len() == self.bindings.len());
                        if self.count() == c0 {
                            assert(tsize(dres(m0, rk0, a@)) > tsize(dres(m0, rk0, ps1[i as int])));
                            assert(tsize(dres(m0, rk0, b@)) > tsize(dres(m0, rk0, ps2[i as int])));
                            assert(self.resolved(ps1[i as int]) == dres(m0, rk0, ps1[i as int]));
                            assert(self.resolved(ps2[i as int]) == dres(m0, rk0, ps2[i as int]));
                        }
                        if dres(m0, rk0, t1@) == dres(m0, rk0, t2@) {
                            assert(dres_list(m0, rk0, ps1)[i as int] == dres_list(m0, rk0, ps2)[i as int]);
                        }
                    }
                    let ghost mp = self.map();
                    let ghost rp = self.ranks();
                    match self.unify(&a1[i], &a2[i], span) {
                        Err(e) => { return Err(e); }
                        Ok(()) => {}
                    }
                    proof {
                        use_type_invariant(&*self);
                        assert forall|k: int| 0 <= k < i + 1 implies dres(self.map(), self.ranks(), #[trigger] ps1[k]) == dres(self.map(), self.ranks(), ps2[k]) by {
                            if k < i {
                                lemma_same_after(mp, rp, self.map(), self.ranks(), ps1[k], ps2[k]);
                            }
                        }
                    }
                    i = i + 1;
                }
                proof {
                    let m = self.map();
                    let rk = self.ranks();
                    lemma_dres_list(m, rk, ps1);
                    lemma_dres_list(m, rk, ps2);
                    assert(dres_list(m, rk, ps1) =~= dres_list(m, rk, ps2));
                    lemma_same_after(m0, rk0, m, rk, t1@, a@);
                    lemma_same_after(m0, rk0, m, rk, t2@, b@);
                }
                Ok(())
            }
            (Type::Option(x), Type::Option(y)) => {
                proof {
                    if dres(m0, rk0, t1@) == dres(m0, rk0, t2@) {
                        assert(self.resolved(x@) == self.resolved(y@));
                    }
                }
                let r = self.unify(x, y, span);
                proof {
                    use_type_invariant(&*self);
                    if r is Ok {
                        lemma_same_after(m0, rk0, self.map(), self.ranks(), t1@, a@);
                        lemma_same_after(m0, rk0, self.map(), self.ranks(), t2@, b@);
                    }
                }
                r
            }
            (Type::List(x), Type::List(y)) => {
                proof {
                    if dres(m0, rk0, t1@) == dres(m0, rk0, t2@) {
                        assert(self.resolved(x@) == self.resolved(y@));
                    }
                }
                let r = self.unify(x, y, span);
                proof {
                    use_type_invariant(&*self);
                    if r is Ok {
                        lemma_same_after(m0, rk0, self.map(), self.ranks(), t1@, a@);
                        lemma_same_after(m0, rk0, self.map(), self.ranks(), t2@, b@);
                    }
                }
                r
            }
            (Type::Result(o1, e1), Type::Result(o2, e2)) => {
                proof {
                    if dres(m0, rk0, t1@) == dres(m0, rk0, t2@) {
                        assert(self.resolved(o1@) == self.resolved(o2@));
                    }
                }
                match self.unify(o1, o2, span) {
                    Err(e) => Err(e),
                    Ok(()) => {
                        let ghost m1 = self.map();
                        let ghost rk1 = self.ranks();
                        proof {
                            use_type_invariant(&*self);
                            assert(self.bindings@.len() == self.bindings.len());
                            if self.count() == c0 {
                                assert(tsize(dres(m0, rk0, e1@)) < tsize(dres(m0, rk0, a@)));
                                assert(tsize(dres(m0, rk0, e2@)) < tsize(dres(m0, rk0, b@)));
                            }
                            if dres(m0, rk0, t1@) == dres(m0, rk0, t2@) {
                                assert(self.resolved(e1@) == self.resolved(e2@));
                            }
                        }
                        let r = self.unify(e1, e2, span);
                        proof {
                            use_type_invariant(&*self);
                            if r is Ok {
                                lemma_same_after(m1, rk1, self.map(), self.ranks(), o1@, o2@);
                                lemma_same_after(m0, rk0, self.map(), self.ranks(), t1@, a@);
                                lemma_same_after(m0, rk0, self.map(), self.ranks(), t2@, b@);
                            }
                        }
                        r
                    }
                }
            }
            _ => Err(Self::mismatch(&a, &b, span, false)),
        }
    }
}

/// Resolution is idempotent: resolving a resolved type changes nothing.
pub proof fn lemma_resolve_idempotent(table: UnificationTable, t: TyV)
    requires
        table.wf(),
    ensures
        table.resolved(table.resolved(t)) == table.resolved(t),
{
    lemma_extend(table.map(), table.ranks(), table.map(), table.ranks(), t);
}

/// Deep resolution leaves no bound variable behind.
pub proof fn lemma_dres_unbound(m: Map<u32, TyV>, rank: spec_fn(u32) -> nat, t: TyV, v: u32)
    requires
        twf(m, rank),
        occ(dres(m, rank, t)).contains(v),
    ensures
        !m.contains_key(v),
    decreases mr(rank, t), t, 0nat,
{
    match t {
        TyV::Var(id) => {
            if m.contains_key(id) {
                assert(mr(rank, m[id]) <= rank(id));
                lemma_dres_unbound(m, rank, m[id], v);
            } else {
                assert(occ(TyV::Var(id)) == seq![id]);
            }
        }
        TyV::Fun(ps, r) => {
            lemma_concat_contains(occ_list(dres_list(m, rank, ps)), occ(dres(m, rank, *r)), v);
            if occ_list(dres_list(m, rank, ps)).contains(v) {
                lemma_dres_list_unbound(m, rank, ps, v);
            } else {
                lemma_dres_unbound(m, rank, *r, v);
            }
        }
        TyV::ADT(_, args) => {
            lemma_dres_list_unbound(m, rank, args, v);
        }
        TyV::Option(i) => {
            lemma_dres_unbound(m, rank, *i, v);
        }
        TyV::List(i) => {
            lemma_dres_unbound(m, rank, *i, v);
        }
        TyV::Result(a, b) => {
            lemma_concat_contains(occ(dres(m, rank, *a)), occ(dres(m, rank, *b)), v);
            if occ(dres(m, rank, *a)).contains(v) {
                lemma_dres_unbound(m, rank, *a, v);
            } else {
                lemma_dres_unbound(m, rank, *b, v);
            }
        }
        _ => {
            assert(occ(dres(m, rank, t)) =~= Seq::<u32>::empty());
        }
    }
}

/// [`lemma_dres_unbound`] for lists.
pub proof fn lemma_dres_list_unbound(m: Map<u32, TyV>, rank: spec_fn(u32) -> nat, ts: Seq<TyV>, v: u32)
    requires
        twf(m, rank),
        occ_list(dres_list(m, rank, ts)).contains(v),
    ensures
        !m.contains_key(v),
    decreases mr_list(rank, ts), ts, 1nat,
{
    if ts.len() > 0 {
        let d = dres_list(m, rank, ts);
        assert(d =~= seq![dres(m, rank, ts[0])] + dres_list(m, rank, ts.drop_first()));
        lemma_occ_list_cons(dres(m, rank, ts[0]), dres_list(m, rank, ts.drop_first()));
        lemma_concat_contains(occ(dres(m, rank, ts[0])), occ_list(dres_list(m, rank, ts.drop_first())), v);
        if occ(dres(m, rank, ts[0])).contains(v) {
            lemma_dres_unbound(m, rank, ts[0], v);
        } else {
            lemma_dres_list_unbound(m, rank, ts.drop_first(), v);
        }
    }
}

/// Unbound type variables resolve to themselves.
pub proof fn lemma_dres_unbound_vars(m: Map<u32, TyV>, rank: spec_fn(u32) -> nat, ts: Seq<TyV>)
    requires
        twf(m, rank),
        forall|k: int| 0 <= k < ts.len() ==> (#[trigger] ts[k]) is Var && !m.contains_key(ts[k]->Var_0),
    ensures
        dres_list(m, rank, ts) == ts,
    decreases ts.len(),
{
    if ts.len() > 0 {
        assert(ts[0] is Var && !m.contains_key(ts[0]->Var_0));
        assert(dres(m, rank, ts[0]) == ts[0]);
        let rest = ts.drop_first();
        assert forall|k: int| 0 <= k < rest.len() implies (#[trigger] rest[k]) is Var && !m.contains_key(rest[k]->Var_0) by {
            assert(rest[k] == ts[k + 1]);
        }
        lemma_dres_unbound_vars(m, rank, rest);
        assert(dres_list(m, rank, ts) =~= seq![ts[0]] + rest);
        assert(seq![ts[0]] + rest =~= ts);
    }
}

/// A type without type variables resolves to itself.
pub proof fn lemma_dres_ground(m: Map<u32, TyV>, rank: spec_fn(u32) -> nat, t: TyV)
    requires
        twf(m, rank),
        occ(t).len() == 0,
    ensures
        dres(m, rank, t) == t,
    decreases t, 0nat,
{
    match t {
        TyV::Var(_) => {}
        TyV::Fun(ps, r) => {
            lemma_dres_list_ground(m, rank, ps);
            lemma_dres_ground(m, rank, *r);
        }
        TyV::ADT(_, args) => {
            lemma_dres_list_ground(m, rank, args);
        }
        TyV::Option(i) => {
            lemma_dres_ground(m, rank, *i);
        }
        TyV::List(i) => {
            lemma_dres_ground(m, rank, *i);
        }
        TyV::Result(a, b) => {
            lemma_dres_ground(m, rank, *a);
            lemma_dres_ground(m, rank, *b);
        }
        _ => {}
    }
}

/// Types without type variables resolve to themselves.
pub proof fn lemma_dres_list_ground(m: Map<u32, TyV>, rank: spec_fn(u32) -> nat, ts: Seq<TyV>)
    requires
        twf(m, rank),
        occ_list(ts).len() == 0,
    ensures
        dres_list(m, rank, ts) == ts,
    decreases ts, 1nat,
{
    if ts.len() > 0 {
        lemma_dres_ground(m, rank, ts[0]);
        lemma_dres_list_ground(m, rank, ts.drop_first());
        assert(dres_list(m, rank, ts) =~= seq![ts[0]] + ts.drop_first());
        assert(seq![ts[0]] + ts.drop_first() =~= ts);
    }
}

/// The laws of resolution: deep resolution is idempotent, leaves no bound
/// variable, and gives the same result after a shallow resolution.
pub proof fn lemma_resolution_laws(table: UnificationTable, t: TyV)
    requires
        table.wf(),
    ensures
        table.resolved(table.resolved(t)) == table.resolved(t),
        forall|v: u32| #[trigger] occ(table.resolved(t)).contains(v) ==> !table.map().contains_key(v),
        table.resolved(table.shallow(t)) == table.resolved(t),
{
    lemma_resolve_idempotent(table, t);
    lemma_sres(table.map(), table.ranks(), t);
    assert forall|v: u32| #[trigger] occ(table.resolved(t)).contains(v) implies !table.map().contains_key(v) by {
        lemma_dres_unbound(table.map(), table.ranks(), t, v);
    }
}

/// Adding bindings never separates types that were unified: when `after`
/// keeps every binding of `before`, types with one resolution under
/// `before` still have one under `after`.
pub proof fn lemma_unified_stay_unified(before: UnificationTable, after: UnificationTable, a: TyV, b: TyV)
    requires
        before.wf(),
        after.wf(),
        extends(before.map(), after.map()),
        before.resolved(a) == before.resolved(b),
    ensures
        after.resolved(a) == after.resolved(b),
{
    lemma_extend(before.map(), before.ranks(), after.map(), after.ranks(), a);
    lemma_extend(before.map(), before.ranks(), after.map(), after.ranks(), b);
}

} // verus!
