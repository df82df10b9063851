//! Capture-avoiding substitution of a term for the free occurrences of a variable.
use vstd::prelude::*;
use crate::names::{decimal, lemma_decimal_injective, suffixed};
use vstd::set_lib::{lemma_int_range, lemma_len_subset, lemma_len_union, lemma_map_size, set_int_range};
use crate::term::{Binder, Term, TermDebugContext, Tm};

verus! {

/// Whether `b` followed by the decimal digits of `k` is a usable new name for a
/// binder `b` whose body is `body`, when substituting `v` for `x`: it occurs
/// free neither in `body` nor in `v`, and it differs from `x`.
pub open spec fn rename_ok(b: Seq<char>, k: u64, body: Tm, v: Tm, x: Seq<char>) -> bool {
    let c = b + decimal(k as nat);
    !body.free_in(c) && !v.free_in(c) && c != x
}

/// The least suffix `k' >= k` (up to `u64::MAX`) that `rename_ok` accepts, if any.
pub open spec fn fresh_from(b: Seq<char>, k: u64, body: Tm, v: Tm, x: Seq<char>) -> Option<u64>
    decreases u64::MAX - k,
{
    if rename_ok(b, k, body, v, x) {
        Some(k)
    } else if k == u64::MAX {
        None
    } else {
        fresh_from(b, (k + 1) as u64, body, v, x)
    }
}

/// The value `v` put in place of an occurrence of a variable whose debug
/// context is `db`: `v` keeps its own context unless that context is `Ignore`.
pub open spec fn placed(v: Tm, db: TermDebugContext) -> Tm {
    if v.ctx() == TermDebugContext::Ignore {
        v.with_ctx(db)
    } else {
        v
    }
}

/// Substitution of `v` for the free occurrences of `x` in `t`, unfolded at most
/// `fuel` levels deep. A binder `b` that would capture a free variable of `v`
/// is renamed to `b` followed by the least decimal suffix that is free neither
/// in the binder's body nor in `v` and differs from `x`.
pub open spec fn subst_fuel(t: Tm, x: Seq<char>, v: Tm, fuel: nat) -> Tm
    decreases fuel,
{
    if fuel == 0 {
        t
    } else {
        let f = (fuel - 1) as nat;
        match t {
            Tm::Var(s, db) => if s == x {
                placed(v, db)
            } else {
                t
            },
            Tm::App(a, p, db) => Tm::App(
                Box::new(subst_fuel(*a, x, v, f)),
                Box::new(subst_fuel(*p, x, v, f)),
                db,
            ),
            Tm::Bind(k, b, ty, body, db) => {
                let ty2 = subst_fuel(*ty, x, v, f);
                if b == x {
                    Tm::Bind(k, b, Box::new(ty2), body, db)
                } else if v.free_in(b) {
                    match fresh_from(b, 0, *body, v, x) {
                        Some(n) => {
                            let b2 = b + decimal(n as nat);
                            let body2 = subst_fuel(
                                *body,
                                b,
                                Tm::Var(b2, TermDebugContext::Ignore),
                                f,
                            );
                            Tm::Bind(k, b2, Box::new(ty2), Box::new(subst_fuel(body2, x, v, f)), db)
                        },
                        None => Tm::Bind(
                            k,
                            b,
                            Box::new(ty2),
                            Box::new(subst_fuel(*body, x, v, f)),
                            db,
                        ),
                    }
                } else {
                    Tm::Bind(k, b, Box::new(ty2), Box::new(subst_fuel(*body, x, v, f)), db)
                }
            },
            Tm::Cons(a, c, db) => Tm::Cons(
                Box::new(subst_fuel(*a, x, v, f)),
                Box::new(subst_fuel(*c, x, v, f)),
                db,
            ),
        }
    }
}

/// Substitution of `v` for the free occurrences of `x` in `t`.
pub open spec fn subst(t: Tm, x: Seq<char>, v: Tm) -> Tm {
    subst_fuel(t, x, v, t.size())
}

/// Substituting a variable keeps the size of a term.
pub proof fn lemma_subst_var_size(t: Tm, x: Seq<char>, v: Tm, fuel: nat)
    requires
        v is Var,
    ensures
        subst_fuel(t, x, v, fuel).size() == t.size(),
    decreases fuel,
{
    if fuel > 0 {
        let f = (fuel - 1) as nat;
        match t {
            Tm::Var(s, db) => {},
            Tm::App(a, p, db) => {
                lemma_subst_var_size(*a, x, v, f);
                lemma_subst_var_size(*p, x, v, f);
            },
            Tm::Bind(k, b, ty, body, db) => {
                lemma_subst_var_size(*ty, x, v, f);
                lemma_subst_var_size(*body, x, v, f);
                if b != x && v.free_in(b) {
                    match fresh_from(b, 0, *body, v, x) {
                        Some(n) => {
                            let b2 = b + decimal(n as nat);
                            let w = Tm::Var(b2, TermDebugContext::Ignore);
                            lemma_subst_var_size(*body, b, w, f);
                            lemma_subst_var_size(subst_fuel(*body, b, w, f), x, v, f);
                        },
                        None => {},
                    }
                }
            },
            Tm::Cons(a, c, db) => {
                lemma_subst_var_size(*a, x, v, f);
                lemma_subst_var_size(*c, x, v, f);
            },
        }
    }
}

/// Any fuel at least the size of the term gives the same substitution.
pub proof fn lemma_subst_fuel(t: Tm, x: Seq<char>, v: Tm, f1: nat, f2: nat)
    requires
        f1 >= t.size(),
        f2 >= t.size(),
    ensures
        subst_fuel(t, x, v, f1) == subst_fuel(t, x, v, f2),
    decreases t.size(),
{
    let g1 = (f1 - 1) as nat;
    let g2 = (f2 - 1) as nat;
    match t {
        Tm::Var(s, db) => {},
        Tm::App(a, p, db) => {
            lemma_subst_fuel(*a, x, v, g1, g2);
            lemma_subst_fuel(*p, x, v, g1, g2);
        },
        Tm::Bind(k, b, ty, body, db) => {
            lemma_subst_fuel(*ty, x, v, g1, g2);
            lemma_subst_fuel(*body, x, v, g1, g2);
            if b != x && v.free_in(b) {
                match fresh_from(b, 0, *body, v, x) {
                    Some(n) => {
                        let b2 = b + decimal(n as nat);
                        let w = Tm::Var(b2, TermDebugContext::Ignore);
                        lemma_subst_fuel(*body, b, w, g1, g2);
                        let body2 = subst_fuel(*body, b, w, g1);
                        lemma_subst_var_size(*body, b, w, g1);
                        lemma_subst_fuel(body2, x, v, g1, g2);
                    },
                    None => {},
                }
            }
        },
        Tm::Cons(a, c, db) => {
            lemma_subst_fuel(*a, x, v, g1, g2);
            lemma_subst_fuel(*c, x, v, g1, g2);
        },
    }
}

/// Unfolding of `subst` by one level.
pub proof fn lemma_subst_unfold(t: Tm, x: Seq<char>, v: Tm)
    ensures
        subst(t, x, v) == subst_fuel(t, x, v, t.size()),
        forall|f: nat| f >= t.size() ==> #[trigger] subst_fuel(t, x, v, f) == subst(t, x, v),
{
    assert forall|f: nat| f >= t.size() implies #[trigger] subst_fuel(t, x, v, f) == subst(
        t,
        x,
        v,
    ) by {
        lemma_subst_fuel(t, x, v, f, t.size());
    }
}

/// Substituting a variable keeps the size of a term.
pub proof fn lemma_subst_size(t: Tm, x: Seq<char>, v: Tm)
    requires
        v is Var,
    ensures
        subst(t, x, v).size() == t.size(),
{
    lemma_subst_var_size(t, x, v, t.size());
}

/// The free identifiers of a term.
pub open spec fn free_names(t: Tm) -> Set<Seq<char>> {
    Set::new(|s: Seq<char>| t.free_in(s))
}

/// A term has at most as many free identifiers as nodes.
pub proof fn lemma_free_names_bounded(t: Tm)
    ensures
        free_names(t).finite(),
        free_names(t).len() <= t.size(),
    decreases t,
{
    broadcast use vstd::set_lib::lemma_set_union_finite_iff;

    match t {
        Tm::Var(s, _) => {
            assert(free_names(t) =~= Set::empty().insert(s));
        },
        Tm::App(f, p, _) => {
            lemma_free_names_bounded(*f);
            lemma_free_names_bounded(*p);
            assert(free_names(t) =~= free_names(*f).union(free_names(*p)));
            lemma_len_union(free_names(*f), free_names(*p));
        },
        Tm::Bind(_, _, ty, body, _) => {
            lemma_free_names_bounded(*ty);
            lemma_free_names_bounded(*body);
            let u = free_names(*ty).union(free_names(*body));
            lemma_len_union(free_names(*ty), free_names(*body));
            lemma_len_subset(free_names(t), u);
        },
        Tm::Cons(a, c, _) => {
            lemma_free_names_bounded(*a);
            lemma_free_names_bounded(*c);
            assert(free_names(t) =~= free_names(*a).union(free_names(*c)));
            lemma_len_union(free_names(*a), free_names(*c));
        },
    }
}

/// When no suffix from `k` on gives a usable name, none does.
pub proof fn lemma_fresh_from_none(b: Seq<char>, k: u64, body: Tm, v: Tm, x: Seq<char>, j: u64)
    requires
        fresh_from(b, k, body, v, x) is None,
        k <= j,
    ensures
        !rename_ok(b, j, body, v, x),
    decreases u64::MAX - k,
{
    if k < j {
        lemma_fresh_from_none(b, (k + 1) as u64, body, v, x, j);
    }
}

/// The suffix the search finds gives a usable name.
pub proof fn lemma_fresh_from_some(b: Seq<char>, k: u64, body: Tm, v: Tm, x: Seq<char>)
    requires
        fresh_from(b, k, body, v, x) is Some,
    ensures
        rename_ok(b, fresh_from(b, k, body, v, x)->0, body, v, x),
    decreases u64::MAX - k,
{
    if !rename_ok(b, k, body, v, x) && k < u64::MAX {
        lemma_fresh_from_some(b, (k + 1) as u64, body, v, x);
    }
}

/// A usable new name for a binder always exists for terms whose sizes stay
/// below the number of suffixes: the `u64::MAX + 1` candidate names are
/// distinct, and fewer names occur free in the body and the value.
pub proof fn lemma_fresh_exists(b: Seq<char>, body: Tm, v: Tm, x: Seq<char>)
    requires
        body.size() + v.size() < u64::MAX,
    ensures
        fresh_from(b, 0, body, v, x) is Some,
{
    if fresh_from(b, 0, body, v, x) is None {
        let taken = free_names(body).union(free_names(v)).insert(x);
        lemma_free_names_bounded(body);
        lemma_free_names_bounded(v);
        lemma_len_union(free_names(body), free_names(v));
        let range = set_int_range(0, u64::MAX + 1);
        lemma_int_range(0, u64::MAX + 1);
        let name = |k: int| b + decimal(k as nat);
        assert forall|j: int, k: int|
            range.contains(j) && range.contains(k) && #[trigger] name(j) == #[trigger] name(k)
                implies j == k by {
            assert(decimal(j as nat) =~= name(j).skip(b.len() as int));
            assert(decimal(k as nat) =~= name(k).skip(b.len() as int));
            lemma_decimal_injective(j as nat, k as nat);
        }
        lemma_map_size(range, range.map(name), name);
        assert forall|s: Seq<char>| range.map(name).contains(s) implies taken.contains(s) by {
            let k = choose|k: int| range.contains(k) && name(k) == s;
            lemma_fresh_from_none(b, 0, body, v, x, k as u64);
        }
        lemma_len_subset(range.map(name), taken);
    }
}

/// Placing a value keeps its free identifiers.
pub proof fn lemma_placed_free(v: Tm, db: TermDebugContext, z: Seq<char>)
    ensures
        placed(v, db).free_in(z) == v.free_in(z),
{
}

/// The free identifiers after substituting `v` for `x` in `t`, as a
/// disjunction for each identifier `z`.
pub open spec fn free_after_subst(t: Tm, x: Seq<char>, v: Tm, z: Seq<char>) -> bool {
    (z != x && t.free_in(z)) || (t.free_in(x) && v.free_in(z))
}

/// The free identifiers after a substitution, for one identifier `z`.
pub proof fn lemma_subst_free_names(t: Tm, x: Seq<char>, v: Tm, z: Seq<char>)
    requires
        t.size() + v.size() < u64::MAX,
    ensures
        subst(t, x, v).free_in(z) == free_after_subst(t, x, v, z),
    decreases t.size(), 1nat,
{
    lemma_subst_unfold(t, x, v);
    let f = (t.size() - 1) as nat;
    match t {
        Tm::Var(s, db) => {
            lemma_placed_free(v, db, z);
        },
        Tm::App(a, p, db) => {
            lemma_subst_unfold(*a, x, v);
            lemma_subst_unfold(*p, x, v);
            lemma_subst_free_names(*a, x, v, z);
            lemma_subst_free_names(*p, x, v, z);
            assert(subst_fuel(*a, x, v, f) == subst(*a, x, v));
            assert(subst_fuel(*p, x, v, f) == subst(*p, x, v));
        },
        Tm::Bind(k, b, ty, body, db) => {
            lemma_subst_unfold(*ty, x, v);
            lemma_subst_unfold(*body, x, v);
            lemma_subst_free_names(*ty, x, v, z);
            assert(subst_fuel(*ty, x, v, f) == subst(*ty, x, v));
            if b == x {
            } else if v.free_in(b) {
                lemma_fresh_exists(b, *body, v, x);
                let n = fresh_from(b, 0, *body, v, x)->0;
                lemma_fresh_from_some(b, 0, *body, v, x);
                let b2 = b + decimal(n as nat);
                let w = Tm::Var(b2, TermDebugContext::Ignore);
                lemma_subst_unfold(*body, b, w);
                lemma_subst_size(*body, b, w);
                let body2 = subst(*body, b, w);
                assert(subst_fuel(*body, b, w, f) == body2);
                lemma_subst_unfold(body2, x, v);
                assert(subst_fuel(body2, x, v, f) == subst(body2, x, v));
                lemma_subst_free_names(*body, b, w, z);
                lemma_subst_free_names(*body, b, w, x);
                lemma_subst_free_names(body2, x, v, z);
            } else {
                assert(subst_fuel(*body, x, v, f) == subst(*body, x, v));
                lemma_subst_free_names(*body, x, v, z);
            }
        },
        Tm::Cons(a, c, db) => {
            lemma_subst_unfold(*a, x, v);
            lemma_subst_unfold(*c, x, v);
            lemma_subst_free_names(*a, x, v, z);
            lemma_subst_free_names(*c, x, v, z);
            assert(subst_fuel(*a, x, v, f) == subst(*a, x, v));
            assert(subst_fuel(*c, x, v, f) == subst(*c, x, v));
        },
    }
}

/// The least suffix for renaming binder `b`, searched as `fresh_from` says.
fn fresh_suffix(b: &String, body: &Term, v: &Term, x: &String) -> (r: Option<u64>)
    ensures
        r == fresh_from(b@, 0, body@, v@, x@),
{
    let mut k: u64 = 0;
    loop
        invariant
            fresh_from(b@, k, body@, v@, x@) == fresh_from(b@, 0, body@, v@, x@),
        decreases u64::MAX - k,
    {
        let c = suffixed(b, k);
        if !body.contains(&c) && !v.contains(&c) && !(c == *x) {
            return Some(k);
        }
        if k == u64::MAX {
            return None;
        }
        k = k + 1;
    }
}

impl Term {
    /// The term with `value` substituted for the free occurrences of `identifier`.
    pub fn substituted(&self, identifier: &String, value: &Term) -> (r: Term)
        ensures
            r@ == subst(self@, identifier@, value@),
        decreases self@.size(),
    {
        proof {
            lemma_subst_unfold(self@, identifier@, value@);
        }
        match self {
            Term::Identifier(s, db) => {
                if *s == *identifier {
                    let vdb = value.debug_context();
                    if let TermDebugContext::Ignore = vdb {
                        let r = value.with_new_debug_context(db);
                        r
                    } else {
                        let r = value.duplicate();
                        r
                    }
                } else {
                    let r = self.duplicate();
                    r
                }
            },
            Term::Application { function_term, parameter_term, debug_context } => {
                let a = function_term.substituted(identifier, value);
                let p = parameter_term.substituted(identifier, value);
                proof {
                    lemma_subst_unfold(function_term@, identifier@, value@);
                    lemma_subst_unfold(parameter_term@, identifier@, value@);
                    let f = (self@.size() - 1) as nat;
                    assert(subst_fuel(function_term@, identifier@, value@, f) == a@);
                    assert(subst_fuel(parameter_term@, identifier@, value@, f) == p@);
                }
                Term::Application {
                    function_term: Box::new(a),
                    parameter_term: Box::new(p),
                    debug_context: debug_context.duplicate(),
                }
            },
            Term::Lambda { binding_identifier, binding_type, value_term, debug_context } => {
                let (b, ty, body) = Self::substituted_binder(
                    binding_identifier,
                    binding_type,
                    value_term,
                    identifier,
                    value,
                    Ghost(Binder::Lambda),
                    Ghost(*debug_context),
                );
                Term::Lambda {
                    binding_identifier: b,
                    binding_type: Box::new(ty),
                    value_term: Box::new(body),
                    debug_context: debug_context.duplicate(),
                }
            },
            Term::Forall { binding_identifier, binding_type, value_term, debug_context } => {
                let (b, ty, body) = Self::substituted_binder(
                    binding_identifier,
                    binding_type,
                    value_term,
                    identifier,
                    value,
                    Ghost(Binder::Forall),
                    Ghost(*debug_context),
                );
                Term::Forall {
                    binding_identifier: b,
                    binding_type: Box::new(ty),
                    value_term: Box::new(body),
                    debug_context: debug_context.duplicate(),
                }
            },
            Term::FixedPoint { binding_identifier, binding_type, value_term, debug_context } => {
                let (b, ty, body) = Self::substituted_binder(
                    binding_identifier,
                    binding_type,
                    value_term,
                    identifier,
                    value,
                    Ghost(Binder::FixedPoint),
                    Ghost(*debug_context),
                );
                Term::FixedPoint {
                    binding_identifier: b,
                    binding_type: Box::new(ty),
                    value_term: Box::new(body),
                    debug_context: debug_context.duplicate(),
                }
            },
            Term::Constructor { type_term, value_term, debug_context } => {
                let a = type_term.substituted(identifier, value);
                let c = value_term.substituted(identifier, value);
                proof {
                    lemma_subst_unfold(type_term@, identifier@, value@);
                    lemma_subst_unfold(value_term@, identifier@, value@);
                    let f = (self@.size() - 1) as nat;
                    assert(subst_fuel(type_term@, identifier@, value@, f) == a@);
                    assert(subst_fuel(value_term@, identifier@, value@, f) == c@);
                }
                Term::Constructor {
                    type_term: Box::new(a),
                    value_term: Box::new(c),
                    debug_context: debug_context.duplicate(),
                }
            },
        }
    }

    /// Substitution under a binder `b:ty.body`, giving the new binder name,
    /// binding type and body.
    fn substituted_binder(
        b: &String,
        ty: &Term,
        body: &Term,
        identifier: &String,
        value: &Term,
        Ghost(kind): Ghost<Binder>,
        Ghost(db): Ghost<TermDebugContext>,
    ) -> (r: (String, Term, Term))
        ensures
            subst(Tm::Bind(kind, b@, Box::new(ty@), Box::new(body@), db), identifier@, value@)
                == Tm::Bind(kind, r.0@, Box::new(r.1@), Box::new(r.2@), db),
        decreases 1 + ty@.size() + body@.size(), 0nat,
    {
        let ghost t = Tm::Bind(kind, b@, Box::new(ty@), Box::new(body@), db);
        proof {
            lemma_subst_unfold(t, identifier@, value@);
            lemma_subst_unfold(ty@, identifier@, value@);
            lemma_subst_unfold(body@, identifier@, value@);
        }
        let ty2 = ty.substituted(identifier, value);
        let ghost f = (t.size() - 1) as nat;
        assert(subst_fuel(ty@, identifier@, value@, f) == ty2@);
        assert(subst_fuel(body@, identifier@, value@, f) == subst(body@, identifier@, value@));
        if *b == *identifier {
            (b.clone(), ty2, body.duplicate())
        } else if value.contains(b) {
            match fresh_suffix(b, body, value, identifier) {
                Some(n) => {
                    let b2 = suffixed(b, n);
                    let w = Term::Identifier(b2.clone(), TermDebugContext::Ignore);
                    let body2 = body.substituted(b, &w);
                    proof {
                        lemma_subst_unfold(body@, b@, w@);
                        lemma_subst_size(body@, b@, w@);
                        lemma_subst_unfold(body2@, identifier@, value@);
                    }
                    let body3 = body2.substituted(identifier, value);
                    assert(subst_fuel(body@, b@, w@, f) == body2@);
                    assert(subst_fuel(body2@, identifier@, value@, f) == body3@);
                    (b2, ty2, body3)
                },
                None => (b.clone(), ty2, body.substituted(identifier, value)),
            }
        } else {
            (b.clone(), ty2, body.substituted(identifier, value))
        }
    }

    /// Replaces every free occurrence of a variable by a new term.
    ///
    /// Binders are respected: replacing 'x' by V in (λx:A.x B) x gives
    /// (λx:A.x B) V. A binder that would capture a free variable of V is
    /// renamed first: replacing 'x' by V in λy:A.x y, where V contains 'y',
    /// gives λy0:A.V y0, the suffix being the least number such that the new
    /// name occurs free neither in the body nor in V and differs from 'x'.
    ///
    /// If the value has debug context `Ignore`, each replaced occurrence keeps
    /// its own debug context; otherwise the value's context is copied over.
    pub fn replace(&mut self, identifier: &String, value: &Term)
        ensures
            final(self)@ == subst(old(self)@, identifier@, value@),
    {
        *self = self.substituted(identifier, value);
    }
}


proof fn lemma_subst_fuel_free_subset(t: Tm, x: Seq<char>, v: Tm, z: Seq<char>, fuel: nat)
    requires
        fuel >= t.size(),
        subst_fuel(t, x, v, fuel).free_in(z),
    ensures
        free_after_subst(t, x, v, z),
    decreases t.size(),
{
    let f = (fuel - 1) as nat;
    match t {
        Tm::Var(s, db) => {
            lemma_placed_free(v, db, z);
        },
        Tm::App(a, p, db) => {
            if subst_fuel(*a, x, v, f).free_in(z) {
                lemma_subst_fuel_free_subset(*a, x, v, z, f);
            } else {
                lemma_subst_fuel_free_subset(*p, x, v, z, f);
            }
        },
        Tm::Bind(k, b, ty, body, db) => {
            if subst_fuel(*ty, x, v, f).free_in(z) {
                lemma_subst_fuel_free_subset(*ty, x, v, z, f);
            } else if b != x {
                if v.free_in(b) {
                    match fresh_from(b, 0, *body, v, x) {
                        Some(n) => {
                            lemma_fresh_from_some(b, 0, *body, v, x);
                            let b2 = b + decimal(n as nat);
                            let w = Tm::Var(b2, TermDebugContext::Ignore);
                            let body2 = subst_fuel(*body, b, w, f);
                            lemma_subst_var_size(*body, b, w, f);
                            lemma_subst_fuel_free_subset(body2, x, v, z, f);
                            if body2.free_in(z) && z != x {
                                lemma_subst_fuel_free_subset(*body, b, w, z, f);
                            }
                            if body2.free_in(x) {
                                lemma_subst_fuel_free_subset(*body, b, w, x, f);
                            }
                        },
                        None => {
                            lemma_subst_fuel_free_subset(*body, x, v, z, f);
                        },
                    }
                } else {
                    lemma_subst_fuel_free_subset(*body, x, v, z, f);
                }
            }
        },
        Tm::Cons(a, c, db) => {
            if subst_fuel(*a, x, v, f).free_in(z) {
                lemma_subst_fuel_free_subset(*a, x, v, z, f);
            } else {
                lemma_subst_fuel_free_subset(*c, x, v, z, f);
            }
        },
    }
}

/// Substitution brings in no free identifier but those of the term other than
/// the replaced one and, when it occurs free, those of the value.
pub proof fn lemma_subst_free_subset(t: Tm, x: Seq<char>, v: Tm, z: Seq<char>)
    requires
        subst(t, x, v).free_in(z),
    ensures
        free_after_subst(t, x, v, z),
{
    lemma_subst_fuel_free_subset(t, x, v, z, t.size());
}

} // verus!
