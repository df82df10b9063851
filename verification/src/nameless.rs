//! Terms up to the names of their binders: the nameless form of a term, in
//! which each bound identifier is replaced by the nesting depth of its binder.
use vstd::prelude::*;
use crate::names::{decimal, lemma_decimal_digits};
use crate::reduce::{alpha_from, canonical_name};
use crate::subst::{
    fresh_from, lemma_fresh_exists, lemma_fresh_from_some, lemma_subst_free_names, lemma_subst_size,
    lemma_subst_unfold, subst, subst_fuel,
};
use crate::term::{Binder, TermDebugContext, Tm};

verus! {

/// What an identifier refers to: the binder at some nesting depth, or the
/// identifier itself when it is free.
pub enum Meaning {
    Bound(nat),
    Free(Seq<char>),
}

/// A term without binder names and without debug contexts.
pub enum Nameless {
    Ref(Meaning),
    App(Box<Nameless>, Box<Nameless>),
    Bind(Binder, Box<Nameless>, Box<Nameless>),
    Cons(Box<Nameless>, Box<Nameless>),
}

/// The identifiers in scope and what they refer to, innermost last.
pub type Scope = Seq<(Seq<char>, Meaning)>;

/// What the identifier `s` refers to in scope `e`.
pub open spec fn meaning(s: Seq<char>, e: Scope) -> Meaning
    decreases e.len(),
{
    if e.len() == 0 {
        Meaning::Free(s)
    } else if e.last().0 == s {
        e.last().1
    } else {
        meaning(s, e.drop_last())
    }
}

/// The nameless form of `t` in scope `e`, its binders being at depth `d` and deeper.
pub open spec fn nameless(t: Tm, e: Scope, d: nat) -> Nameless
    decreases t,
{
    match t {
        Tm::Var(s, _) => Nameless::Ref(meaning(s, e)),
        Tm::App(f, p, _) => Nameless::App(Box::new(nameless(*f, e, d)), Box::new(nameless(*p, e, d))),
        Tm::Bind(k, b, ty, body, _) => Nameless::Bind(
            k,
            Box::new(nameless(*ty, e, d)),
            Box::new(nameless(*body, e.push((b, Meaning::Bound(d))), d + 1)),
        ),
        Tm::Cons(a, c, _) => Nameless::Cons(
            Box::new(nameless(*a, e, d)),
            Box::new(nameless(*c, e, d)),
        ),
    }
}

/// Whether two terms are equal up to the names of their binders (and their
/// debug contexts): α-equivalence.
pub open spec fn alpha_equivalent(t1: Tm, t2: Tm) -> bool {
    nameless(t1, Seq::empty(), 0) == nameless(t2, Seq::empty(), 0)
}

/// The name α-normalization gives a binder at depth `d`: `#d`.
pub open spec fn canon(d: nat) -> Seq<char> {
    seq!['#'] + decimal(d)
}

/// Whether a name is reserved for α-normalization: it starts with `#`.
pub open spec fn reserved(s: Seq<char>) -> bool {
    s.len() > 0 && s[0] == '#'
}

/// Whether no free identifier of `t` is reserved.
pub open spec fn unreserved(t: Tm) -> bool {
    forall|s: Seq<char>| #[trigger] t.free_in(s) ==> !reserved(s)
}

/// The named term of a nameless form whose binders are at depth `d` and
/// deeper: the binder at depth `k` is named `#k`, free identifiers keep their
/// names, and every debug context is `Ignore`.
pub open spec fn named(n: Nameless, d: nat) -> Tm
    decreases n,
{
    match n {
        Nameless::Ref(Meaning::Bound(k)) => Tm::Var(canon(k), TermDebugContext::Ignore),
        Nameless::Ref(Meaning::Free(s)) => Tm::Var(s, TermDebugContext::Ignore),
        Nameless::App(f, p) => Tm::App(
            Box::new(named(*f, d)),
            Box::new(named(*p, d)),
            TermDebugContext::Ignore,
        ),
        Nameless::Bind(k, ty, body) => Tm::Bind(
            k,
            canon(d),
            Box::new(named(*ty, d)),
            Box::new(named(*body, d + 1)),
            TermDebugContext::Ignore,
        ),
        Nameless::Cons(a, c) => Tm::Cons(
            Box::new(named(*a, d)),
            Box::new(named(*c, d)),
            TermDebugContext::Ignore,
        ),
    }
}

/// The scope inside `n` binders renamed by α-normalization: `#k` refers to
/// the binder at depth `k`.
pub open spec fn canon_scope(n: nat) -> Scope {
    Seq::new(n, |k: int| (canon(k as nat), Meaning::Bound(k as nat)))
}

/// Two scopes that agree on the free identifiers of a term give it the
/// same nameless form.
pub proof fn lemma_nameless_agree(t: Tm, e1: Scope, e2: Scope, d: nat)
    requires
        forall|s: Seq<char>| #[trigger] t.free_in(s) ==> meaning(s, e1) == meaning(s, e2),
    ensures
        nameless(t, e1, d) == nameless(t, e2, d),
    decreases t,
{
    match t {
        Tm::Var(s, _) => {
            assert(t.free_in(s));
        },
        Tm::App(f, p, _) => {
            assert forall|s: Seq<char>| #[trigger] f.free_in(s) implies meaning(s, e1) == meaning(
                s,
                e2,
            ) by {
                assert(t.free_in(s));
            }
            assert forall|s: Seq<char>| #[trigger] p.free_in(s) implies meaning(s, e1) == meaning(
                s,
                e2,
            ) by {
                assert(t.free_in(s));
            }
            lemma_nameless_agree(*f, e1, e2, d);
            lemma_nameless_agree(*p, e1, e2, d);
        },
        Tm::Bind(k, b, ty, body, _) => {
            let b1 = e1.push((b, Meaning::Bound(d)));
            let b2 = e2.push((b, Meaning::Bound(d)));
            assert forall|s: Seq<char>| #[trigger] ty.free_in(s) implies meaning(s, e1) == meaning(
                s,
                e2,
            ) by {
                assert(t.free_in(s));
            }
            assert forall|s: Seq<char>| #[trigger] body.free_in(s) implies meaning(s, b1) == meaning(
                s,
                b2,
            ) by {
                if s != b {
                    assert(t.free_in(s));
                    assert(b1.drop_last() == e1);
                    assert(b2.drop_last() == e2);
                }
            }
            lemma_nameless_agree(*ty, e1, e2, d);
            lemma_nameless_agree(*body, b1, b2, d + 1);
        },
        Tm::Cons(a, c, _) => {
            assert forall|s: Seq<char>| #[trigger] a.free_in(s) implies meaning(s, e1) == meaning(
                s,
                e2,
            ) by {
                assert(t.free_in(s));
            }
            assert forall|s: Seq<char>| #[trigger] c.free_in(s) implies meaning(s, e1) == meaning(
                s,
                e2,
            ) by {
                assert(t.free_in(s));
            }
            lemma_nameless_agree(*a, e1, e2, d);
            lemma_nameless_agree(*c, e1, e2, d);
        },
    }
}

/// Substituting the identifier `c` for `x`: the nameless form of the result
/// is that of the term with `x` referring to what `c` refers to, binders that
/// would capture `c` being renamed (for terms within the range of renaming
/// suffixes).
pub proof fn lemma_nameless_subst(t: Tm, x: Seq<char>, c: Seq<char>, e: Scope, d: nat)
    requires
        t.size() + 1 < u64::MAX,
    ensures
        nameless(subst(t, x, Tm::Var(c, TermDebugContext::Ignore)), e, d) == nameless(
            t,
            e.push((x, meaning(c, e))),
            d,
        ),
    decreases t.size(),
{
    let v = Tm::Var(c, TermDebugContext::Ignore);
    let m = meaning(c, e);
    let ex = e.push((x, m));
    lemma_subst_unfold(t, x, v);
    assert(ex.drop_last() == e);
    match t {
        Tm::Var(s, db) => {
        },
        Tm::App(f, p, db) => {
            lemma_subst_unfold(*f, x, v);
            lemma_subst_unfold(*p, x, v);
            lemma_nameless_subst(*f, x, c, e, d);
            lemma_nameless_subst(*p, x, c, e, d);
            let sf = (t.size() - 1) as nat;
            assert(subst_fuel(*f, x, v, sf) == subst(*f, x, v));
            assert(subst_fuel(*p, x, v, sf) == subst(*p, x, v));
        },
        Tm::Bind(k, b, ty, body, db) => {
            lemma_subst_unfold(*ty, x, v);
            lemma_subst_unfold(*body, x, v);
            lemma_nameless_subst(*ty, x, c, e, d);
            let inner = e.push((b, Meaning::Bound(d)));
            let sf = (t.size() - 1) as nat;
            assert(subst_fuel(*ty, x, v, sf) == subst(*ty, x, v));
            assert(subst_fuel(*body, x, v, sf) == subst(*body, x, v));
            let ey = ex.push((b, Meaning::Bound(d)));
            assert(ey.drop_last() == ex);
            assert(inner.drop_last() == e);
            if b == x {
                // the binder shadows x: its body is untouched
                assert forall|s: Seq<char>| #[trigger] body.free_in(s) implies meaning(s, inner)
                    == meaning(s, ey) by {
                    if s != b {
                        assert(meaning(s, ex) == meaning(s, e));
                    }
                }
                lemma_nameless_agree(*body, inner, ey, d + 1);
            } else if v.free_in(b) {
                // the binder is c itself: it is renamed to a fresh name first
                lemma_fresh_exists(b, *body, v, x);
                let n = fresh_from(b, 0, *body, v, x)->0;
                lemma_fresh_from_some(b, 0, *body, v, x);
                let b2 = b + decimal(n as nat);
                let w = Tm::Var(b2, TermDebugContext::Ignore);
                lemma_subst_unfold(*body, b, w);
                lemma_subst_size(*body, b, w);
                let body2 = subst(*body, b, w);
                assert(subst_fuel(*body, b, w, sf) == body2);
                lemma_subst_unfold(body2, x, v);
                assert(subst_fuel(body2, x, v, sf) == subst(body2, x, v));
                let e1 = e.push((b2, Meaning::Bound(d)));
                assert(e1.drop_last() == e);
                lemma_nameless_subst(body2, x, c, e1, d + 1);
                let e2 = e1.push((x, m));
                assert(e2.drop_last() == e1);
                lemma_nameless_subst(*body, b, b2, e2, d + 1);
                assert(meaning(b2, e2) == meaning(b2, e1));
                let e3 = e2.push((b, Meaning::Bound(d)));
                assert(e3.drop_last() == e2);
                assert forall|s: Seq<char>| #[trigger] body.free_in(s) implies meaning(s, e3)
                    == meaning(s, ey) by {
                    if s != b {
                        if s != x {
                            assert(meaning(s, e2) == meaning(s, e1));
                            assert(meaning(s, ex) == meaning(s, e));
                        }
                    }
                }
                lemma_nameless_agree(*body, e3, ey, d + 1);
            } else {
                lemma_nameless_subst(*body, x, c, inner, d + 1);
                let ei = inner.push((x, meaning(c, inner)));
                assert(ei.drop_last() == inner);
                assert forall|s: Seq<char>| #[trigger] body.free_in(s) implies meaning(s, ei)
                    == meaning(s, ey) by {
                    if s == x {
                    } else if s == b {
                    } else {
                        assert(meaning(s, inner) == meaning(s, e));
                        assert(meaning(s, ex) == meaning(s, e));
                    }
                }
                lemma_nameless_agree(*body, ei, ey, d + 1);
            }
        },
        Tm::Cons(a, c2, db) => {
            lemma_subst_unfold(*a, x, v);
            lemma_subst_unfold(*c2, x, v);
            lemma_nameless_subst(*a, x, c, e, d);
            lemma_nameless_subst(*c2, x, c, e, d);
            let sf = (t.size() - 1) as nat;
            assert(subst_fuel(*a, x, v, sf) == subst(*a, x, v));
            assert(subst_fuel(*c2, x, v, sf) == subst(*c2, x, v));
        },
    }
}

/// Inside `n` binders renamed by α-normalization, an identifier refers to the
/// binder at depth `k` exactly when it is `#k` for some `k < n`, and is free
/// otherwise.
proof fn lemma_canon_scope_meaning(s: Seq<char>, n: nat)
    ensures
        match meaning(s, canon_scope(n)) {
            Meaning::Free(s2) => s2 == s,
            Meaning::Bound(k) => k < n && canon(k) == s,
        },
    decreases n,
{
    if n > 0 {
        assert(canon_scope(n).drop_last() =~= canon_scope((n - 1) as nat));
        lemma_canon_scope_meaning(s, (n - 1) as nat);
    }
}

/// The names α-normalization gives binders at different depths differ.
proof fn lemma_canon_injective(j: nat, k: nat)
    requires
        j != k,
    ensures
        canon(j) != canon(k),
{
    lemma_decimal_digits(j);
    lemma_decimal_digits(k);
    if canon(j) == canon(k) {
        assert(canon(j).drop_first() =~= decimal(j));
        assert(canon(k).drop_first() =~= decimal(k));
    }
}

/// α-normalization of a term, inside `n` renamed binders, gives the named
/// term of its nameless form (up to debug contexts), provided no free `#k`
/// with `k >= n` occurs in it.
proof fn lemma_alpha_nameless(t: Tm, n: nat)
    requires
        forall|k: nat| k >= n ==> !t.free_in(#[trigger] canon(k)),
        n + t.size() <= u64::MAX,
    ensures
        alpha_from(t, n as u64).erase() == named(nameless(t, canon_scope(n), n), n),
    decreases t.size(),
{
    match t {
        Tm::Var(s, db) => {
            lemma_canon_scope_meaning(s, n);
        },
        Tm::App(f, p, db) => {
            lemma_alpha_nameless(*f, n);
            lemma_alpha_nameless(*p, n);
        },
        Tm::Bind(kind, b, ty, body, db) => {
            let c = canonical_name(n as u64);
            let v = Tm::Var(c, TermDebugContext::Ignore);
            let body2 = subst(*body, b, v);
            let e = canon_scope(n);
            let e1 = canon_scope(n + 1);
            assert(e1.drop_last() =~= e);
            lemma_subst_size(*body, b, v);
            crate::term::lemma_size_positive(*ty);
            lemma_nameless_subst(*body, b, c, e1, n + 1);
            lemma_alpha_nameless(*ty, n);
            assert forall|k: nat| k >= n + 1 implies !body2.free_in(#[trigger] canon(k)) by {
                lemma_canon_injective(k, n);
                lemma_subst_free_names(*body, b, v, canon(k));
                if body2.free_in(canon(k)) {
                }
            }
            lemma_alpha_nameless(body2, n + 1);
            // the renamed body in the scope of the new name is the body in the
            // scope of its binder
            let inner1 = e1.push((b, Meaning::Bound(n)));
            let inner0 = e.push((b, Meaning::Bound(n)));
            assert forall|s: Seq<char>| #[trigger] body.free_in(s) implies meaning(s, inner1)
                == meaning(s, inner0) by {
                assert(inner1.drop_last() == e1);
                assert(inner0.drop_last() == e);
                if s != b {
                    if s == c {
                    }
                    assert(meaning(s, e1) == meaning(s, e));
                }
            }
            lemma_nameless_agree(*body, inner1, inner0, n + 1);
        },
        Tm::Cons(a, c2, db) => {
            lemma_alpha_nameless(*a, n);
            lemma_alpha_nameless(*c2, n);
        },
    }
}

/// α-normalization of a term with no reserved free identifier gives the
/// named term of its nameless form, up to debug contexts.
pub proof fn lemma_alpha_normal_form(t: Tm)
    requires
        unreserved(t),
        t.size() <= u64::MAX,
    ensures
        alpha_from(t, 0).erase() == named(nameless(t, Seq::empty(), 0), 0),
{
    assert(canon_scope(0) =~= Seq::<(Seq<char>, Meaning)>::empty());
    lemma_alpha_nameless(t, 0);
}

/// Whether a nameless form at depth `d` refers only to binders around it
/// (those at depths below `d` and its own) and to unreserved free names.
pub open spec fn well_scoped(nm: Nameless, d: nat) -> bool
    decreases nm,
{
    match nm {
        Nameless::Ref(Meaning::Bound(k)) => k < d,
        Nameless::Ref(Meaning::Free(s)) => !reserved(s),
        Nameless::App(f, p) => well_scoped(*f, d) && well_scoped(*p, d),
        Nameless::Bind(_, ty, body) => well_scoped(*ty, d) && well_scoped(*body, d + 1),
        Nameless::Cons(a, c) => well_scoped(*a, d) && well_scoped(*c, d),
    }
}

/// Inside `d` renamed binders, `#k` with `k < d` refers to the binder at depth `k`.
proof fn lemma_canon_scope_bound(k: nat, d: nat)
    requires
        k < d,
    ensures
        meaning(canon(k), canon_scope(d)) == Meaning::Bound(k),
    decreases d,
{
    assert(canon_scope(d).drop_last() =~= canon_scope((d - 1) as nat));
    if k < d - 1 {
        lemma_canon_injective(k, (d - 1) as nat);
        lemma_canon_scope_bound(k, (d - 1) as nat);
    }
}

/// The nameless form of a term whose free names (in scope `e`) are
/// unreserved or bound at depths below `d` is well scoped.
proof fn lemma_nameless_well_scoped(t: Tm, e: Scope, d: nat)
    requires
        forall|s: Seq<char>| #[trigger] t.free_in(s) ==> match meaning(s, e) {
            Meaning::Bound(k) => k < d,
            Meaning::Free(s2) => !reserved(s2),
        },
    ensures
        well_scoped(nameless(t, e, d), d),
    decreases t,
{
    match t {
        Tm::Var(s, _) => {
            assert(t.free_in(s));
        },
        Tm::App(f, p, _) => {
            assert forall|s: Seq<char>| #[trigger] f.free_in(s) implies match meaning(s, e) {
                Meaning::Bound(k) => k < d,
                Meaning::Free(s2) => !reserved(s2),
            } by {
                assert(t.free_in(s));
            }
            assert forall|s: Seq<char>| #[trigger] p.free_in(s) implies match meaning(s, e) {
                Meaning::Bound(k) => k < d,
                Meaning::Free(s2) => !reserved(s2),
            } by {
                assert(t.free_in(s));
            }
            lemma_nameless_well_scoped(*f, e, d);
            lemma_nameless_well_scoped(*p, e, d);
        },
        Tm::Bind(_, b, ty, body, _) => {
            let inner = e.push((b, Meaning::Bound(d)));
            assert forall|s: Seq<char>| #[trigger] ty.free_in(s) implies match meaning(s, e) {
                Meaning::Bound(k) => k < d,
                Meaning::Free(s2) => !reserved(s2),
            } by {
                assert(t.free_in(s));
            }
            assert forall|s: Seq<char>| #[trigger] body.free_in(s) implies match meaning(s, inner) {
                Meaning::Bound(k) => k < d + 1,
                Meaning::Free(s2) => !reserved(s2),
            } by {
                assert(inner.drop_last() == e);
                if s != b {
                    assert(t.free_in(s));
                }
            }
            lemma_nameless_well_scoped(*ty, e, d);
            lemma_nameless_well_scoped(*body, inner, d + 1);
        },
        Tm::Cons(a, c, _) => {
            assert forall|s: Seq<char>| #[trigger] a.free_in(s) implies match meaning(s, e) {
                Meaning::Bound(k) => k < d,
                Meaning::Free(s2) => !reserved(s2),
            } by {
                assert(t.free_in(s));
            }
            assert forall|s: Seq<char>| #[trigger] c.free_in(s) implies match meaning(s, e) {
                Meaning::Bound(k) => k < d,
                Meaning::Free(s2) => !reserved(s2),
            } by {
                assert(t.free_in(s));
            }
            lemma_nameless_well_scoped(*a, e, d);
            lemma_nameless_well_scoped(*c, e, d);
        },
    }
}

/// Naming a well scoped nameless form and taking the nameless form back
/// gives it again.
proof fn lemma_named_round_trip(nm: Nameless, d: nat)
    requires
        well_scoped(nm, d),
    ensures
        nameless(named(nm, d), canon_scope(d), d) == nm,
    decreases nm,
{
    match nm {
        Nameless::Ref(Meaning::Bound(k)) => {
            lemma_canon_scope_bound(k, d);
        },
        Nameless::Ref(Meaning::Free(s)) => {
            lemma_canon_scope_meaning(s, d);
            if meaning(s, canon_scope(d)) is Bound {
                let k = meaning(s, canon_scope(d))->Bound_0;
            }
        },
        Nameless::App(f, p) => {
            lemma_named_round_trip(*f, d);
            lemma_named_round_trip(*p, d);
        },
        Nameless::Bind(k, ty, body) => {
            assert(canon_scope(d).push((canon(d), Meaning::Bound(d))) =~= canon_scope(d + 1));
            lemma_named_round_trip(*ty, d);
            lemma_named_round_trip(*body, d + 1);
        },
        Nameless::Cons(a, c) => {
            lemma_named_round_trip(*a, d);
            lemma_named_round_trip(*c, d);
        },
    }
}

/// The nameless form of a term with no reserved free identifier is that of
/// its α-normal form.
pub proof fn lemma_nameless_of_alpha_normal_form(t: Tm)
    requires
        unreserved(t),
        t.size() <= u64::MAX,
    ensures
        nameless(alpha_from(t, 0).erase(), Seq::empty(), 0) == nameless(t, Seq::empty(), 0),
{
    lemma_alpha_normal_form(t);
    lemma_nameless_well_scoped(t, Seq::empty(), 0);
    lemma_named_round_trip(nameless(t, Seq::empty(), 0), 0);
    assert(canon_scope(0) =~= Seq::<(Seq<char>, Meaning)>::empty());
}

} // verus!
