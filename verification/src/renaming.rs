//! Reduction does not depend on the names of binders: terms equal up to
//! renaming of their bound identifiers reduce to terms equal up to renaming.
use vstd::prelude::*;
use crate::nameless::{
    alpha_equivalent, lemma_nameless_agree, lemma_nameless_subst, meaning, nameless, Meaning, Nameless,
    Scope,
};
use crate::reduce::{fixed_point_step, normalize_fuel, normalize_spec, reduction_step, settle_fuel};
use crate::names::decimal;
use crate::subst::{
    fresh_from, lemma_fresh_exists, lemma_fresh_from_some, lemma_subst_size, lemma_subst_unfold, subst,
    subst_fuel,
};
use crate::term::{Binder, TermDebugContext, Tm};

verus! {

/// A meaning with every reference to a binder at level `from` or deeper moved
/// `by` levels deeper.
pub open spec fn raise_meaning(m: Meaning, from: nat, by: nat) -> Meaning {
    match m {
        Meaning::Bound(j) => if j >= from {
            Meaning::Bound(j + by)
        } else {
            Meaning::Bound(j)
        },
        Meaning::Free(s) => Meaning::Free(s),
    }
}

/// A nameless form with every reference to a binder at level `from` or deeper
/// moved `by` levels deeper.
pub open spec fn raise(n: Nameless, from: nat, by: nat) -> Nameless
    decreases n,
{
    match n {
        Nameless::Ref(m) => Nameless::Ref(raise_meaning(m, from, by)),
        Nameless::App(f, p) => Nameless::App(
            Box::new(raise(*f, from, by)),
            Box::new(raise(*p, from, by)),
        ),
        Nameless::Bind(k, ty, body) => Nameless::Bind(
            k,
            Box::new(raise(*ty, from, by)),
            Box::new(raise(*body, from, by)),
        ),
        Nameless::Cons(a, c) => Nameless::Cons(
            Box::new(raise(*a, from, by)),
            Box::new(raise(*c, from, by)),
        ),
    }
}

/// Whether a meaning refers to no binder at level `d` or deeper.
pub open spec fn below(m: Meaning, d: nat) -> bool {
    match m {
        Meaning::Bound(j) => j < d,
        Meaning::Free(_) => true,
    }
}

/// Whether every binder a scope refers to is at a level below `d`.
pub open spec fn scope_below(e: Scope, d: nat) -> bool {
    forall|i: int| 0 <= i < e.len() ==> below(#[trigger] e[i].1, d)
}

proof fn lemma_meaning_below(s: Seq<char>, e: Scope, d: nat)
    requires
        scope_below(e, d),
    ensures
        below(meaning(s, e), d),
    decreases e.len(),
{
    if e.len() > 0 && e.last().0 != s {
        lemma_meaning_below(s, e.drop_last(), d);
    }
}

/// The nameless form of a term at a deeper level: its own binders move, the
/// binders of the scope stay.
proof fn lemma_relevel(t: Tm, ed: Scope, ek: Scope, dd: nat, from: nat, by: nat)
    requires
        dd >= from,
        forall|s: Seq<char>| #[trigger]
            t.free_in(s) ==> meaning(s, ek) == raise_meaning(meaning(s, ed), from, by),
    ensures
        nameless(t, ek, dd + by) == raise(nameless(t, ed, dd), from, by),
    decreases t,
{
    match t {
        Tm::Var(s, _) => {
            assert(t.free_in(s));
        },
        Tm::App(f, p, _) => {
            assert forall|s: Seq<char>| #[trigger] f.free_in(s) implies meaning(s, ek)
                == raise_meaning(meaning(s, ed), from, by) by {
                assert(t.free_in(s));
            }
            assert forall|s: Seq<char>| #[trigger] p.free_in(s) implies meaning(s, ek)
                == raise_meaning(meaning(s, ed), from, by) by {
                assert(t.free_in(s));
            }
            lemma_relevel(*f, ed, ek, dd, from, by);
            lemma_relevel(*p, ed, ek, dd, from, by);
        },
        Tm::Bind(k, b, ty, body, _) => {
            assert forall|s: Seq<char>| #[trigger] ty.free_in(s) implies meaning(s, ek)
                == raise_meaning(meaning(s, ed), from, by) by {
                assert(t.free_in(s));
            }
            lemma_relevel(*ty, ed, ek, dd, from, by);
            let ed2 = ed.push((b, Meaning::Bound(dd)));
            let ek2 = ek.push((b, Meaning::Bound(dd + by)));
            assert(ed2.drop_last() == ed);
            assert(ek2.drop_last() == ek);
            assert forall|s: Seq<char>| #[trigger] body.free_in(s) implies meaning(s, ek2)
                == raise_meaning(meaning(s, ed2), from, by) by {
                if s != b {
                    assert(t.free_in(s));
                }
            }
            lemma_relevel(*body, ed2, ek2, dd + 1, from, by);
        },
        Tm::Cons(a, c, _) => {
            assert forall|s: Seq<char>| #[trigger] a.free_in(s) implies meaning(s, ek)
                == raise_meaning(meaning(s, ed), from, by) by {
                assert(t.free_in(s));
            }
            assert forall|s: Seq<char>| #[trigger] c.free_in(s) implies meaning(s, ek)
                == raise_meaning(meaning(s, ed), from, by) by {
                assert(t.free_in(s));
            }
            lemma_relevel(*a, ed, ek, dd, from, by);
            lemma_relevel(*c, ed, ek, dd, from, by);
        },
    }
}

/// Within a scope whose binders are below level `d`, the nameless form of a
/// term at level `k >= d` is that at level `d` with its own binders moved.
pub proof fn lemma_nameless_at_depth(t: Tm, e: Scope, d: nat, k: nat)
    requires
        scope_below(e, d),
        d <= k,
    ensures
        nameless(t, e, k) == raise(nameless(t, e, d), d, (k - d) as nat),
{
    assert forall|s: Seq<char>| #[trigger] t.free_in(s) implies meaning(s, e) == raise_meaning(
        meaning(s, e),
        d,
        (k - d) as nat,
    ) by {
        lemma_meaning_below(s, e, d);
    }
    lemma_relevel(t, e, e, d, d, (k - d) as nat);
}

/// What a reference becomes when the binder at level `d` is removed and a term
/// whose nameless form at level `d` is `p` is put where it was referred to, at
/// level `k` of the result: deeper binders move one level up.
pub open spec fn lower_meaning(m: Meaning, d: nat, p: Nameless, k: nat) -> Nameless {
    match m {
        Meaning::Bound(j) => if j == d {
            raise(p, d, (k - d) as nat)
        } else if j > d {
            Nameless::Ref(Meaning::Bound((j - 1) as nat))
        } else {
            Nameless::Ref(Meaning::Bound(j))
        },
        Meaning::Free(s) => Nameless::Ref(Meaning::Free(s)),
    }
}

/// The nameless form of the result of a β-reduction, from that of the body
/// (whose binders start one level deeper than `k`, the level of the result).
pub open spec fn lower(n: Nameless, d: nat, p: Nameless, k: nat) -> Nameless
    decreases n,
{
    match n {
        Nameless::Ref(m) => lower_meaning(m, d, p, k),
        Nameless::App(f, a) => Nameless::App(
            Box::new(lower(*f, d, p, k)),
            Box::new(lower(*a, d, p, k)),
        ),
        Nameless::Bind(kind, ty, body) => Nameless::Bind(
            kind,
            Box::new(lower(*ty, d, p, k)),
            Box::new(lower(*body, d, p, k + 1)),
        ),
        Nameless::Cons(a, c) => Nameless::Cons(
            Box::new(lower(*a, d, p, k)),
            Box::new(lower(*c, d, p, k)),
        ),
    }
}

/// Whether the scopes `e` (of a result at level `k`) and `f` (of the original
/// one level deeper) agree on the free identifiers of `t`, the binder at
/// level `d` being removed.
pub open spec fn lowered_scopes(t: Tm, e: Scope, f: Scope, d: nat, p: Nameless, k: nat) -> bool {
    forall|s: Seq<char>|
        #[trigger] t.free_in(s) ==> meaning(s, f) != Meaning::Bound(d) && Nameless::Ref(
            meaning(s, e),
        ) == lower_meaning(meaning(s, f), d, p, k)
}

proof fn lemma_lower_untouched(t: Tm, e: Scope, f: Scope, d: nat, p: Nameless, k: nat)
    requires
        k >= d,
        lowered_scopes(t, e, f, d, p, k),
    ensures
        nameless(t, e, k) == lower(nameless(t, f, k + 1), d, p, k),
    decreases t,
{
    match t {
        Tm::Var(s, _) => {
            assert(t.free_in(s));
        },
        Tm::App(a, c, _) => {
            assert(lowered_scopes(*a, e, f, d, p, k)) by {
                assert forall|s: Seq<char>| #[trigger] a.free_in(s) implies t.free_in(s) by {}
            }
            assert(lowered_scopes(*c, e, f, d, p, k)) by {
                assert forall|s: Seq<char>| #[trigger] c.free_in(s) implies t.free_in(s) by {}
            }
            lemma_lower_untouched(*a, e, f, d, p, k);
            lemma_lower_untouched(*c, e, f, d, p, k);
        },
        Tm::Bind(kind, b, ty, body, _) => {
            assert(lowered_scopes(*ty, e, f, d, p, k)) by {
                assert forall|s: Seq<char>| #[trigger] ty.free_in(s) implies t.free_in(s) by {}
            }
            lemma_lower_untouched(*ty, e, f, d, p, k);
            let e2 = e.push((b, Meaning::Bound(k)));
            let f2 = f.push((b, Meaning::Bound(k + 1)));
            assert(e2.drop_last() == e);
            assert(f2.drop_last() == f);
            assert(lowered_scopes(*body, e2, f2, d, p, k + 1)) by {
                assert forall|s: Seq<char>| #[trigger] body.free_in(s) implies meaning(s, f2)
                    != Meaning::Bound(d) && Nameless::Ref(meaning(s, e2)) == lower_meaning(
                    meaning(s, f2),
                    d,
                    p,
                    k + 1,
                ) by {
                    if s != b {
                        assert(t.free_in(s));
                        match meaning(s, f) {
                            Meaning::Bound(j) => {},
                            Meaning::Free(_) => {},
                        }
                    }
                }
            }
            lemma_lower_untouched(*body, e2, f2, d, p, k + 1);
        },
        Tm::Cons(a, c, _) => {
            assert(lowered_scopes(*a, e, f, d, p, k)) by {
                assert forall|s: Seq<char>| #[trigger] a.free_in(s) implies t.free_in(s) by {}
            }
            assert(lowered_scopes(*c, e, f, d, p, k)) by {
                assert forall|s: Seq<char>| #[trigger] c.free_in(s) implies t.free_in(s) by {}
            }
            lemma_lower_untouched(*a, e, f, d, p, k);
            lemma_lower_untouched(*c, e, f, d, p, k);
        },
    }
}

/// The nameless form ignores debug contexts.
pub proof fn lemma_nameless_with_ctx(t: Tm, c: TermDebugContext, e: Scope, d: nat)
    ensures
        nameless(t.with_ctx(c), e, d) == nameless(t, e, d),
{
}

/// The nameless form of a substitution result: that of the term with the
/// binder at level `d`, which `x` refers to, removed and the nameless form of
/// `v` put in its place (for terms within the range of renaming suffixes).
proof fn lemma_subst_lower(t: Tm, x: Seq<char>, v: Tm, e0: Scope, d: nat, e: Scope, f: Scope, k: nat)
    requires
        t.size() + v.size() < u64::MAX,
        scope_below(e0, d),
        k >= d,
        meaning(x, f) == Meaning::Bound(d),
        forall|s: Seq<char>| #[trigger] t.free_in(s) && s != x ==> meaning(s, f) != Meaning::Bound(d)
            && Nameless::Ref(meaning(s, e)) == lower_meaning(meaning(s, f), d, nameless(v, e0, d), k),
        forall|s: Seq<char>| #[trigger] v.free_in(s) ==> meaning(s, e) == meaning(s, e0),
    ensures
        nameless(subst(t, x, v), e, k) == lower(nameless(t, f, k + 1), d, nameless(v, e0, d), k),
    decreases t.size(),
{
    let pn = nameless(v, e0, d);
    lemma_subst_unfold(t, x, v);
    match t {
        Tm::Var(s, db) => {
            assert(t.free_in(s));
            if s == x {
                lemma_nameless_with_ctx(v, db, e, k);
                lemma_nameless_agree(v, e, e0, k);
                lemma_nameless_at_depth(v, e0, d, k);
            }
        },
        Tm::App(a, c, db) => {
            lemma_subst_unfold(*a, x, v);
            lemma_subst_unfold(*c, x, v);
            assert forall|s: Seq<char>| #[trigger] a.free_in(s) implies t.free_in(s) by {}
            assert forall|s: Seq<char>| #[trigger] c.free_in(s) implies t.free_in(s) by {}
            lemma_subst_lower(*a, x, v, e0, d, e, f, k);
            lemma_subst_lower(*c, x, v, e0, d, e, f, k);
            let sf = (t.size() - 1) as nat;
            assert(subst_fuel(*a, x, v, sf) == subst(*a, x, v));
            assert(subst_fuel(*c, x, v, sf) == subst(*c, x, v));
        },
        Tm::Bind(kind, b, ty, body, db) => {
            lemma_subst_unfold(*ty, x, v);
            lemma_subst_unfold(*body, x, v);
            assert forall|s: Seq<char>| #[trigger] ty.free_in(s) implies t.free_in(s) by {}
            lemma_subst_lower(*ty, x, v, e0, d, e, f, k);
            let sf = (t.size() - 1) as nat;
            let fb = f.push((b, Meaning::Bound(k + 1)));
            assert(fb.drop_last() == f);
            if b == x {
                let eb = e.push((b, Meaning::Bound(k)));
                assert(eb.drop_last() == e);
                assert(lowered_scopes(*body, eb, fb, d, pn, k + 1)) by {
                    assert forall|s: Seq<char>| #[trigger] body.free_in(s) implies meaning(s, fb)
                        != Meaning::Bound(d) && Nameless::Ref(meaning(s, eb)) == lower_meaning(
                        meaning(s, fb),
                        d,
                        pn,
                        k + 1,
                    ) by {
                        if s != b {
                            assert(t.free_in(s));
                        }
                    }
                }
                lemma_lower_untouched(*body, eb, fb, d, pn, k + 1);
                assert(subst_fuel(*ty, x, v, sf) == subst(*ty, x, v));
            } else if v.free_in(b) {
                lemma_fresh_exists(b, *body, v, x);
                let n = fresh_from(b, 0, *body, v, x)->0;
                lemma_fresh_from_some(b, 0, *body, v, x);
                let b2 = b + decimal(n as nat);
                let w = Tm::Var(b2, TermDebugContext::Ignore);
                lemma_subst_unfold(*body, b, w);
                lemma_subst_size(*body, b, w);
                let body2 = subst(*body, b, w);
                assert(subst_fuel(*body, b, w, sf) == body2);
                lemma_subst_unfold(body2, x, v);
                assert(subst_fuel(body2, x, v, sf) == subst(body2, x, v));
                let e2 = e.push((b2, Meaning::Bound(k)));
                let f2 = f.push((b2, Meaning::Bound(k + 1)));
                assert(e2.drop_last() == e);
                assert(f2.drop_last() == f);
                assert forall|s: Seq<char>| #[trigger] body2.free_in(s) && s != x implies meaning(s, f2)
                    != Meaning::Bound(d) && Nameless::Ref(meaning(s, e2)) == lower_meaning(
                    meaning(s, f2),
                    d,
                    pn,
                    k + 1,
                ) by {
                    if s != b2 {
                        crate::subst::lemma_subst_free_names(*body, b, w, s);
                        assert(t.free_in(s));
                    }
                }
                lemma_subst_lower(body2, x, v, e0, d, e2, f2, k + 1);
                lemma_nameless_subst(*body, b, b2, f2, k + 2);
                let f3 = f2.push((b, meaning(b2, f2)));
                assert(f3.drop_last() == f2);
                assert forall|s: Seq<char>| #[trigger] body.free_in(s) implies meaning(s, f3)
                    == meaning(s, fb) by {
                    if s != b {
                        assert(meaning(s, f2) == meaning(s, f));
                    }
                }
                lemma_nameless_agree(*body, f3, fb, k + 2);
            } else {
                let eb = e.push((b, Meaning::Bound(k)));
                assert(eb.drop_last() == e);
                assert(subst_fuel(*body, x, v, sf) == subst(*body, x, v));
                assert forall|s: Seq<char>| #[trigger] body.free_in(s) && s != x implies meaning(s, fb)
                    != Meaning::Bound(d) && Nameless::Ref(meaning(s, eb)) == lower_meaning(
                    meaning(s, fb),
                    d,
                    pn,
                    k + 1,
                ) by {
                    if s != b {
                        assert(t.free_in(s));
                    }
                }
                lemma_subst_lower(*body, x, v, e0, d, eb, fb, k + 1);
            }
        },
        Tm::Cons(a, c, db) => {
            lemma_subst_unfold(*a, x, v);
            lemma_subst_unfold(*c, x, v);
            assert forall|s: Seq<char>| #[trigger] a.free_in(s) implies t.free_in(s) by {}
            assert forall|s: Seq<char>| #[trigger] c.free_in(s) implies t.free_in(s) by {}
            lemma_subst_lower(*a, x, v, e0, d, e, f, k);
            lemma_subst_lower(*c, x, v, e0, d, e, f, k);
            let sf = (t.size() - 1) as nat;
            assert(subst_fuel(*a, x, v, sf) == subst(*a, x, v));
            assert(subst_fuel(*c, x, v, sf) == subst(*c, x, v));
        },
    }
}

/// The nameless form of the result of a β-reduction at level `d`.
proof fn lemma_beta_root(b: Seq<char>, body: Tm, p: Tm, e: Scope, d: nat)
    requires
        scope_below(e, d),
        body.size() + p.size() < u64::MAX,
    ensures
        nameless(subst(body, b, p), e, d) == lower(
            nameless(body, e.push((b, Meaning::Bound(d))), d + 1),
            d,
            nameless(p, e, d),
            d,
        ),
{
    let f = e.push((b, Meaning::Bound(d)));
    assert(f.drop_last() == e);
    assert forall|s: Seq<char>| #[trigger] body.free_in(s) && s != b implies meaning(s, f)
        != Meaning::Bound(d) && Nameless::Ref(meaning(s, e)) == lower_meaning(
        meaning(s, f),
        d,
        nameless(p, e, d),
        d,
    ) by {
        lemma_meaning_below(s, e, d);
    }
    lemma_subst_lower(body, b, p, e, d, e, f, d);
}

/// The first β-reduction does not depend on the names of binders: terms with
/// the same nameless form have a first β-reduction together, and the results
/// have the same nameless form.
proof fn lemma_beta_step_renaming(t1: Tm, e1: Scope, t2: Tm, e2: Scope, d: nat)
    requires
        nameless(t1, e1, d) == nameless(t2, e2, d),
        scope_below(e1, d),
        scope_below(e2, d),
        t1.size() < u64::MAX,
        t2.size() < u64::MAX,
    ensures
        (crate::reduce::beta_step(t1) is Some) == (crate::reduce::beta_step(t2) is Some),
        crate::reduce::beta_step(t1) is Some ==> nameless(crate::reduce::beta_step(t1)->0, e1, d)
            == nameless(crate::reduce::beta_step(t2)->0, e2, d),
    decreases t1,
{
    match (t1, t2) {
        (Tm::App(f1, p1, db1), Tm::App(f2, p2, db2)) => {
            match (*f1, *f2) {
                (Tm::Bind(Binder::Lambda, b1, a1, body1, _), Tm::Bind(Binder::Lambda, b2, a2, body2, _)) => {
                    assert(f1.size() == 1 + a1.size() + body1.size());
                    assert(f2.size() == 1 + a2.size() + body2.size());
                    lemma_beta_root(b1, *body1, *p1, e1, d);
                    lemma_beta_root(b2, *body2, *p2, e2, d);
                    lemma_nameless_with_ctx(subst(*body1, b1, *p1), db1, e1, d);
                    lemma_nameless_with_ctx(subst(*body2, b2, *p2), db2, e2, d);
                },
                _ => {
                    lemma_beta_step_renaming(*f1, e1, *f2, e2, d);
                    lemma_beta_step_renaming(*p1, e1, *p2, e2, d);
                },
            }
        },
        (Tm::Bind(k1, b1, ty1, body1, _), Tm::Bind(k2, b2, ty2, body2, _)) => {
            lemma_beta_step_renaming(*ty1, e1, *ty2, e2, d);
            let i1 = e1.push((b1, Meaning::Bound(d)));
            let i2 = e2.push((b2, Meaning::Bound(d)));
            lemma_scope_push_below(e1, b1, d);
            lemma_scope_push_below(e2, b2, d);
            lemma_beta_step_renaming(*body1, i1, *body2, i2, d + 1);
        },
        (Tm::Cons(a1, c1, _), Tm::Cons(a2, c2, _)) => {
            lemma_beta_step_renaming(*a1, e1, *a2, e2, d);
            lemma_beta_step_renaming(*c1, e1, *c2, e2, d);
        },
        _ => {},
    }
}

/// Pushing a binder at level `d` keeps a scope below level `d + 1`.
proof fn lemma_scope_push_below(e: Scope, b: Seq<char>, d: nat)
    requires
        scope_below(e, d),
    ensures
        scope_below(e.push((b, Meaning::Bound(d))), d + 1),
{
    let e2 = e.push((b, Meaning::Bound(d)));
}

/// Whether a nameless form refers to the binder at level `j`.
pub open spec fn refers_to(n: Nameless, j: nat) -> bool
    decreases n,
{
    match n {
        Nameless::Ref(m) => m == Meaning::Bound(j),
        Nameless::App(f, p) => refers_to(*f, j) || refers_to(*p, j),
        Nameless::Bind(_, ty, body) => refers_to(*ty, j) || refers_to(*body, j),
        Nameless::Cons(a, c) => refers_to(*a, j) || refers_to(*c, j),
    }
}

/// A nameless form at a level deeper than `d` refers to the binder at level
/// `d` exactly when a free identifier of the term refers to it.
proof fn lemma_refers(t: Tm, e: Scope, k: nat, d: nat)
    requires
        k > d,
    ensures
        refers_to(nameless(t, e, k), d) <==> exists|s: Seq<char>| #[trigger] t.free_in(s)
            && meaning(s, e) == Meaning::Bound(d),
    decreases t,
{
    match t {
        Tm::Var(s0, _) => {
            if meaning(s0, e) == Meaning::Bound(d) {
                assert(t.free_in(s0) && meaning(s0, e) == Meaning::Bound(d));
            }
            if exists|s: Seq<char>| #[trigger] t.free_in(s) && meaning(s, e) == Meaning::Bound(d) {
                let s = choose|s: Seq<char>| #[trigger] t.free_in(s) && meaning(s, e) == Meaning::Bound(d);
            }
        },
        Tm::App(a, c, _) => {
            lemma_refers(*a, e, k, d);
            lemma_refers(*c, e, k, d);
            if refers_to(nameless(*a, e, k), d) {
                let s = choose|s: Seq<char>| #[trigger] a.free_in(s) && meaning(s, e) == Meaning::Bound(d);
                assert(t.free_in(s));
            }
            if refers_to(nameless(*c, e, k), d) {
                let s = choose|s: Seq<char>| #[trigger] c.free_in(s) && meaning(s, e) == Meaning::Bound(d);
                assert(t.free_in(s));
            }
            if exists|s: Seq<char>| #[trigger] t.free_in(s) && meaning(s, e) == Meaning::Bound(d) {
                let s = choose|s: Seq<char>| #[trigger] t.free_in(s) && meaning(s, e) == Meaning::Bound(d);
                if !a.free_in(s) {
                    assert(c.free_in(s));
                }
            }
        },
        Tm::Bind(kind, b, ty, body, _) => {
            lemma_refers(*ty, e, k, d);
            let e2 = e.push((b, Meaning::Bound(k)));
            assert(e2.drop_last() == e);
            lemma_refers(*body, e2, k + 1, d);
            if refers_to(nameless(*ty, e, k), d) {
                let s = choose|s: Seq<char>| #[trigger] ty.free_in(s) && meaning(s, e) == Meaning::Bound(d);
                assert(t.free_in(s));
            }
            if exists|s: Seq<char>| #[trigger] t.free_in(s) && meaning(s, e) == Meaning::Bound(d) {
                let s = choose|s: Seq<char>| #[trigger] t.free_in(s) && meaning(s, e) == Meaning::Bound(d);
                if !ty.free_in(s) {
                    assert(body.free_in(s) && meaning(s, e2) == Meaning::Bound(d));
                }
            }
            if exists|s: Seq<char>| #[trigger] body.free_in(s) && meaning(s, e2) == Meaning::Bound(d) {
                let s = choose|s: Seq<char>| #[trigger] body.free_in(s) && meaning(s, e2) == Meaning::Bound(d);
                assert(t.free_in(s));
            }
        },
        Tm::Cons(a, c, _) => {
            lemma_refers(*a, e, k, d);
            lemma_refers(*c, e, k, d);
            if refers_to(nameless(*a, e, k), d) {
                let s = choose|s: Seq<char>| #[trigger] a.free_in(s) && meaning(s, e) == Meaning::Bound(d);
                assert(t.free_in(s));
            }
            if refers_to(nameless(*c, e, k), d) {
                let s = choose|s: Seq<char>| #[trigger] c.free_in(s) && meaning(s, e) == Meaning::Bound(d);
                assert(t.free_in(s));
            }
            if exists|s: Seq<char>| #[trigger] t.free_in(s) && meaning(s, e) == Meaning::Bound(d) {
                let s = choose|s: Seq<char>| #[trigger] t.free_in(s) && meaning(s, e) == Meaning::Bound(d);
                if !a.free_in(s) {
                    assert(c.free_in(s));
                }
            }
        },
    }
}

/// Inside a binder at level `d` of a scope below `d`, the binder's own name
/// is free in a term exactly when the nameless form refers to level `d`.
proof fn lemma_refers_binder(t: Tm, e: Scope, b: Seq<char>, d: nat)
    requires
        scope_below(e, d),
    ensures
        refers_to(nameless(t, e.push((b, Meaning::Bound(d))), d + 1), d) <==> t.free_in(b),
{
    let e2 = e.push((b, Meaning::Bound(d)));
    assert(e2.drop_last() == e);
    lemma_refers(t, e2, d + 1, d);
    if exists|s: Seq<char>| #[trigger] t.free_in(s) && meaning(s, e2) == Meaning::Bound(d) {
        let s = choose|s: Seq<char>| #[trigger] t.free_in(s) && meaning(s, e2) == Meaning::Bound(d);
        if s != b {
            lemma_meaning_below(s, e, d);
        }
    }
}

/// A term in which the binder at level `d` is not free keeps its nameless
/// form when that binder is removed.
proof fn lemma_drop_unused_binder(t: Tm, e: Scope, b: Seq<char>, d: nat)
    requires
        scope_below(e, d),
        !t.free_in(b),
    ensures
        nameless(t, e, d) == lower(
            nameless(t, e.push((b, Meaning::Bound(d))), d + 1),
            d,
            Nameless::Ref(Meaning::Bound(d)),
            d,
        ),
{
    let f = e.push((b, Meaning::Bound(d)));
    assert(f.drop_last() == e);
    let pn = Nameless::Ref(Meaning::Bound(d));
    assert(lowered_scopes(t, e, f, d, pn, d)) by {
        assert forall|s: Seq<char>| #[trigger] t.free_in(s) implies meaning(s, f) != Meaning::Bound(d)
            && Nameless::Ref(meaning(s, e)) == lower_meaning(meaning(s, f), d, pn, d) by {
            lemma_meaning_below(s, e, d);
        }
    }
    lemma_lower_untouched(t, e, f, d, pn, d);
}

/// The η-reduction at the root does not depend on the names of binders.
proof fn lemma_eta_redex_renaming(t1: Tm, e1: Scope, t2: Tm, e2: Scope, d: nat)
    requires
        nameless(t1, e1, d) == nameless(t2, e2, d),
        scope_below(e1, d),
        scope_below(e2, d),
    ensures
        (crate::reduce::eta_redex(t1) is Some) == (crate::reduce::eta_redex(t2) is Some),
        crate::reduce::eta_redex(t1) is Some ==> nameless(crate::reduce::eta_redex(t1)->0, e1, d)
            == nameless(crate::reduce::eta_redex(t2)->0, e2, d),
{
    match (t1, t2) {
        (Tm::Bind(Binder::Lambda, b1, _, body1, _), Tm::Bind(Binder::Lambda, b2, _, body2, _)) => {
            let i1 = e1.push((b1, Meaning::Bound(d)));
            let i2 = e2.push((b2, Meaning::Bound(d)));
            assert(i1.drop_last() == e1);
            assert(i2.drop_last() == e2);
            assert(nameless(*body1, i1, d + 1) == nameless(*body2, i2, d + 1));
            match (*body1, *body2) {
                (Tm::App(f1, q1, _), Tm::App(f2, q2, _)) => {
                    assert(nameless(*q1, i1, d + 1) == nameless(*q2, i2, d + 1));
                    match (*q1, *q2) {
                        (Tm::Var(s1, _), Tm::Var(s2, _)) => {
                            if s1 != b1 {
                                lemma_meaning_below(s1, e1, d);
                            }
                            if s2 != b2 {
                                lemma_meaning_below(s2, e2, d);
                            }
                            lemma_refers_binder(*f1, e1, b1, d);
                            lemma_refers_binder(*f2, e2, b2, d);
                            if s1 == b1 && !f1.free_in(b1) {
                                lemma_drop_unused_binder(*f1, e1, b1, d);
                                lemma_drop_unused_binder(*f2, e2, b2, d);
                            }
                        },
                        _ => {},
                    }
                },
                _ => {},
            }
        },
        _ => {},
    }
}

/// The first η-reduction does not depend on the names of binders.
proof fn lemma_eta_step_renaming(t1: Tm, e1: Scope, t2: Tm, e2: Scope, d: nat)
    requires
        nameless(t1, e1, d) == nameless(t2, e2, d),
        scope_below(e1, d),
        scope_below(e2, d),
    ensures
        (crate::reduce::eta_step(t1) is Some) == (crate::reduce::eta_step(t2) is Some),
        crate::reduce::eta_step(t1) is Some ==> nameless(crate::reduce::eta_step(t1)->0, e1, d)
            == nameless(crate::reduce::eta_step(t2)->0, e2, d),
    decreases t1,
{
    lemma_eta_redex_renaming(t1, e1, t2, e2, d);
    match (t1, t2) {
        (Tm::App(f1, p1, _), Tm::App(f2, p2, _)) => {
            lemma_eta_step_renaming(*f1, e1, *f2, e2, d);
            lemma_eta_step_renaming(*p1, e1, *p2, e2, d);
        },
        (Tm::Bind(k1, b1, ty1, body1, _), Tm::Bind(k2, b2, ty2, body2, _)) => {
            lemma_eta_step_renaming(*ty1, e1, *ty2, e2, d);
            lemma_scope_push_below(e1, b1, d);
            lemma_scope_push_below(e2, b2, d);
            lemma_eta_step_renaming(
                *body1,
                e1.push((b1, Meaning::Bound(d))),
                *body2,
                e2.push((b2, Meaning::Bound(d))),
                d + 1,
            );
        },
        (Tm::Cons(a1, c1, _), Tm::Cons(a2, c2, _)) => {
            lemma_eta_step_renaming(*a1, e1, *a2, e2, d);
            lemma_eta_step_renaming(*c1, e1, *c2, e2, d);
        },
        _ => {},
    }
}

/// The first fixed point expansion does not depend on the names of binders.
pub proof fn lemma_fixed_point_step_renaming(t1: Tm, e1: Scope, t2: Tm, e2: Scope, d: nat, inc: bool)
    requires
        nameless(t1, e1, d) == nameless(t2, e2, d),
    ensures
        (fixed_point_step(t1, inc) is Some) == (fixed_point_step(t2, inc) is Some),
        fixed_point_step(t1, inc) is Some ==> nameless(
            fixed_point_step(t1, inc)->0,
            e1,
            d,
        ) == nameless(fixed_point_step(t2, inc)->0, e2, d),
    decreases t1,
{
    match (t1, t2) {
        (Tm::App(f1, p1, _), Tm::App(f2, p2, _)) => {
            lemma_fixed_point_step_renaming(*f1, e1, *f2, e2, d, inc);
            lemma_fixed_point_step_renaming(*p1, e1, *p2, e2, d, inc);
        },
        (Tm::Bind(k1, b1, ty1, body1, _), Tm::Bind(k2, b2, ty2, body2, _)) => {
            let i1 = e1.push((b1, Meaning::Bound(d)));
            let i2 = e2.push((b2, Meaning::Bound(d)));
            lemma_fixed_point_step_renaming(*ty1, e1, *ty2, e2, d, inc);
            lemma_fixed_point_step_renaming(*body1, i1, *body2, i2, d + 1, inc);
            if k1 == Binder::FixedPoint && (crate::reduce::is_lambda(*body1) || inc) {
                let (db1, db2) = (t1.ctx(), t2.ctx());
                let r1 = Tm::App(Box::new(Tm::Bind(Binder::Lambda, b1, ty1, body1, db1)), Box::new(t1), db1);
                let r2 = Tm::App(Box::new(Tm::Bind(Binder::Lambda, b2, ty2, body2, db2)), Box::new(t2), db2);
                let l1 = Tm::Bind(Binder::Lambda, b1, ty1, body1, db1);
                let l2 = Tm::Bind(Binder::Lambda, b2, ty2, body2, db2);
                assert(nameless(l1, e1, d) == Nameless::Bind(
                    Binder::Lambda,
                    Box::new(nameless(*ty1, e1, d)),
                    Box::new(nameless(*body1, i1, d + 1)),
                ));
                assert(nameless(l2, e2, d) == Nameless::Bind(
                    Binder::Lambda,
                    Box::new(nameless(*ty2, e2, d)),
                    Box::new(nameless(*body2, i2, d + 1)),
                ));
            }
        },
        (Tm::Cons(a1, c1, _), Tm::Cons(a2, c2, _)) => {
            lemma_fixed_point_step_renaming(*a1, e1, *a2, e2, d, inc);
            lemma_fixed_point_step_renaming(*c1, e1, *c2, e2, d, inc);
        },
        _ => {},
    }
}

/// The number of nodes of a nameless form.
pub open spec fn nameless_size(n: Nameless) -> nat
    decreases n,
{
    match n {
        Nameless::Ref(_) => 1,
        Nameless::App(f, p) => 1 + nameless_size(*f) + nameless_size(*p),
        Nameless::Bind(_, ty, body) => 1 + nameless_size(*ty) + nameless_size(*body),
        Nameless::Cons(a, c) => 1 + nameless_size(*a) + nameless_size(*c),
    }
}

/// A term has as many nodes as its nameless form.
proof fn lemma_nameless_size(t: Tm, e: Scope, d: nat)
    ensures
        nameless_size(nameless(t, e, d)) == t.size(),
    decreases t,
{
    match t {
        Tm::Var(_, _) => {},
        Tm::App(f, p, _) => {
            lemma_nameless_size(*f, e, d);
            lemma_nameless_size(*p, e, d);
        },
        Tm::Bind(_, b, ty, body, _) => {
            lemma_nameless_size(*ty, e, d);
            lemma_nameless_size(*body, e.push((b, Meaning::Bound(d))), d + 1);
        },
        Tm::Cons(a, c, _) => {
            lemma_nameless_size(*a, e, d);
            lemma_nameless_size(*c, e, d);
        },
    }
}

/// Whether every term that normalization passes through in at most `fuel`
/// rounds from `t` has fewer than `u64::MAX` nodes.
pub open spec fn normalize_small(t: Tm, fuel: nat) -> bool
    decreases fuel,
{
    t.size() < u64::MAX && (fuel == 0 || match reduction_step(t) {
        Some(t2) => normalize_small(t2, (fuel - 1) as nat),
        None => true,
    })
}

/// Whether every term that the normalization loop passes through in at most
/// `fuel` rounds from `t` has fewer than `u64::MAX` nodes.
pub open spec fn settle_small(t: Tm, fuel: nat) -> bool
    decreases fuel,
{
    t.size() < u64::MAX && (fuel == 0 || (normalize_small(t, u64::MAX as nat) && match fixed_point_step(
        normalize_spec(t),
        false,
    ) {
        Some(t2) => settle_small(t2, (fuel - 1) as nat),
        None => true,
    }))
}

/// The reduction of a normalization round does not depend on the names of
/// binders.
pub proof fn lemma_reduction_step_renaming(t1: Tm, t2: Tm)
    requires
        alpha_equivalent(t1, t2),
        t1.size() < u64::MAX,
    ensures
        (reduction_step(t1) is Some) == (reduction_step(t2) is Some),
        reduction_step(t1) is Some ==> alpha_equivalent(reduction_step(t1)->0, reduction_step(t2)->0),
{
    let e = Seq::<(Seq<char>, Meaning)>::empty();
    lemma_nameless_size(t1, e, 0);
    lemma_nameless_size(t2, e, 0);
    lemma_beta_step_renaming(t1, e, t2, e, 0);
    lemma_eta_step_renaming(t1, e, t2, e, 0);
}

/// Normalization does not depend on the names of binders.
proof fn lemma_normalize_renaming(t1: Tm, t2: Tm, fuel: nat)
    requires
        alpha_equivalent(t1, t2),
        normalize_small(t1, fuel),
    ensures
        alpha_equivalent(normalize_fuel(t1, fuel), normalize_fuel(t2, fuel)),
    decreases fuel,
{
    if fuel > 0 {
        lemma_reduction_step_renaming(t1, t2);
        match reduction_step(t1) {
            Some(r1) => lemma_normalize_renaming(r1, reduction_step(t2)->0, (fuel - 1) as nat),
            None => {},
        }
    }
}

/// The normalization loop does not depend on the names of binders.
pub proof fn lemma_settle_renaming(t1: Tm, t2: Tm, fuel: nat)
    requires
        alpha_equivalent(t1, t2),
        settle_small(t1, fuel),
    ensures
        alpha_equivalent(settle_fuel(t1, fuel), settle_fuel(t2, fuel)),
    decreases fuel,
{
    if fuel > 0 {
        lemma_normalize_renaming(t1, t2, u64::MAX as nat);
        let n1 = normalize_spec(t1);
        let n2 = normalize_spec(t2);
        let e = Seq::<(Seq<char>, Meaning)>::empty();
        lemma_fixed_point_step_renaming(n1, e, n2, e, 0, false);
        match fixed_point_step(n1, false) {
            Some(r1) => lemma_settle_renaming(r1, fixed_point_step(n2, false)->0, (fuel - 1) as nat),
            None => {},
        }
    }
}

/// A β-reduction brings in no free identifier.
proof fn lemma_beta_step_free(t: Tm, s: Seq<char>)
    requires
        crate::reduce::beta_step(t) is Some,
        crate::reduce::beta_step(t)->0.free_in(s),
    ensures
        t.free_in(s),
    decreases t,
{
    match t {
        Tm::App(f, p, db) => match *f {
            Tm::Bind(Binder::Lambda, b, _, body, _) => {
                let r = subst(*body, b, *p);
                crate::subst::lemma_subst_free_subset(*body, b, *p, s);
                if s != b && body.free_in(s) {
                    assert(f.free_in(s));
                }
            },
            _ => {
                if crate::reduce::beta_step(*f) is Some {
                    if crate::reduce::beta_step(*f)->0.free_in(s) {
                        lemma_beta_step_free(*f, s);
                    }
                } else {
                    if crate::reduce::beta_step(*p)->0.free_in(s) {
                        lemma_beta_step_free(*p, s);
                    }
                }
            },
        },
        Tm::Bind(k, b, ty, body, db) => {
            if crate::reduce::beta_step(*ty) is Some {
                if crate::reduce::beta_step(*ty)->0.free_in(s) {
                    lemma_beta_step_free(*ty, s);
                }
            } else {
                if crate::reduce::beta_step(*body)->0.free_in(s) {
                    lemma_beta_step_free(*body, s);
                }
            }
        },
        Tm::Cons(a, c, db) => {
            if crate::reduce::beta_step(*a) is Some {
                if crate::reduce::beta_step(*a)->0.free_in(s) {
                    lemma_beta_step_free(*a, s);
                }
            } else {
                if crate::reduce::beta_step(*c)->0.free_in(s) {
                    lemma_beta_step_free(*c, s);
                }
            }
        },
        _ => {},
    }
}

/// An η-reduction brings in no free identifier.
proof fn lemma_eta_step_free(t: Tm, s: Seq<char>)
    requires
        crate::reduce::eta_step(t) is Some,
        crate::reduce::eta_step(t)->0.free_in(s),
    ensures
        t.free_in(s),
    decreases t,
{
    if crate::reduce::eta_redex(t) is Some {
        match t {
            Tm::Bind(_, b, _, body, _) => match *body {
                Tm::App(f, _, _) => {
                    assert(body.free_in(s));
                },
                _ => {},
            },
            _ => {},
        }
    } else {
        match t {
            Tm::App(f, p, db) => {
                if crate::reduce::eta_step(*f) is Some {
                    if crate::reduce::eta_step(*f)->0.free_in(s) {
                        lemma_eta_step_free(*f, s);
                    }
                } else {
                    if crate::reduce::eta_step(*p)->0.free_in(s) {
                        lemma_eta_step_free(*p, s);
                    }
                }
            },
            Tm::Bind(k, b, ty, body, db) => {
                if crate::reduce::eta_step(*ty) is Some {
                    if crate::reduce::eta_step(*ty)->0.free_in(s) {
                        lemma_eta_step_free(*ty, s);
                    }
                } else {
                    if crate::reduce::eta_step(*body)->0.free_in(s) {
                        lemma_eta_step_free(*body, s);
                    }
                }
            },
            Tm::Cons(a, c, db) => {
                if crate::reduce::eta_step(*a) is Some {
                    if crate::reduce::eta_step(*a)->0.free_in(s) {
                        lemma_eta_step_free(*a, s);
                    }
                } else {
                    if crate::reduce::eta_step(*c)->0.free_in(s) {
                        lemma_eta_step_free(*c, s);
                    }
                }
            },
            _ => {},
        }
    }
}

/// A fixed point expansion brings in no free identifier.
proof fn lemma_fixed_point_step_free(t: Tm, s: Seq<char>, inc: bool)
    requires
        fixed_point_step(t, inc) is Some,
        fixed_point_step(t, inc)->0.free_in(s),
    ensures
        t.free_in(s),
    decreases t,
{
    if crate::reduce::fixed_point_redex(t, inc) is Some {
        match t {
            Tm::Bind(_, b, ty, body, db) => {
                let l = Tm::Bind(Binder::Lambda, b, ty, body, db);
                assert(fixed_point_step(t, inc)->0 == Tm::App(Box::new(l), Box::new(t), db));
                if l.free_in(s) {
                    assert(t.free_in(s));
                }
            },
            _ => {},
        }
    } else {
        match t {
            Tm::App(f, p, db) => {
                if fixed_point_step(*f, inc) is Some {
                    if fixed_point_step(*f, inc)->0.free_in(s) {
                        lemma_fixed_point_step_free(*f, s, inc);
                    }
                } else {
                    if fixed_point_step(*p, inc)->0.free_in(s) {
                        lemma_fixed_point_step_free(*p, s, inc);
                    }
                }
            },
            Tm::Bind(k, b, ty, body, db) => {
                if fixed_point_step(*body, inc) is Some {
                    if fixed_point_step(*body, inc)->0.free_in(s) {
                        lemma_fixed_point_step_free(*body, s, inc);
                    }
                } else {
                    if fixed_point_step(*ty, inc)->0.free_in(s) {
                        lemma_fixed_point_step_free(*ty, s, inc);
                    }
                }
            },
            Tm::Cons(a, c, db) => {
                if fixed_point_step(*c, inc) is Some {
                    if fixed_point_step(*c, inc)->0.free_in(s) {
                        lemma_fixed_point_step_free(*c, s, inc);
                    }
                } else {
                    if fixed_point_step(*a, inc)->0.free_in(s) {
                        lemma_fixed_point_step_free(*a, s, inc);
                    }
                }
            },
            _ => {},
        }
    }
}

pub proof fn lemma_normalize_free(t: Tm, s: Seq<char>, fuel: nat)
    requires
        normalize_fuel(t, fuel).free_in(s),
    ensures
        t.free_in(s),
    decreases fuel,
{
    if fuel > 0 {
        match crate::reduce::beta_step(t) {
            Some(t2) => {
                lemma_normalize_free(t2, s, (fuel - 1) as nat);
                lemma_beta_step_free(t, s);
            },
            None => match crate::reduce::eta_step(t) {
                Some(t2) => {
                    lemma_normalize_free(t2, s, (fuel - 1) as nat);
                    lemma_eta_step_free(t, s);
                },
                None => {},
            },
        }
    }
}

/// The normalization loop brings in no free identifier.
pub proof fn lemma_settle_free(t: Tm, s: Seq<char>, fuel: nat)
    requires
        settle_fuel(t, fuel).free_in(s),
    ensures
        t.free_in(s),
    decreases fuel,
{
    if fuel > 0 {
        let n = normalize_spec(t);
        match fixed_point_step(n, false) {
            Some(t2) => {
                lemma_settle_free(t2, s, (fuel - 1) as nat);
                lemma_fixed_point_step_free(n, s, false);
                lemma_normalize_free(t, s, u64::MAX as nat);
            },
            None => {
                lemma_normalize_free(t, s, u64::MAX as nat);
            },
        }
    }
}

proof fn lemma_normalize_small_result(t: Tm, fuel: nat)
    requires
        normalize_small(t, fuel),
    ensures
        normalize_fuel(t, fuel).size() < u64::MAX,
    decreases fuel,
{
    if fuel > 0 {
        match reduction_step(t) {
            Some(t2) => lemma_normalize_small_result(t2, (fuel - 1) as nat),
            None => {},
        }
    }
}

/// The result of the normalization loop stays within the size the loop was
/// checked for.
pub proof fn lemma_settle_small_result(t: Tm, fuel: nat)
    requires
        settle_small(t, fuel),
    ensures
        settle_fuel(t, fuel).size() < u64::MAX,
    decreases fuel,
{
    if fuel > 0 {
        lemma_normalize_small_result(t, u64::MAX as nat);
        match fixed_point_step(normalize_spec(t), false) {
            Some(t2) => lemma_settle_small_result(t2, (fuel - 1) as nat),
            None => {},
        }
    }
}

/// Terms equal up to the names of their binders have equally many nodes.
pub proof fn lemma_renaming_keeps_size(t1: Tm, t2: Tm)
    requires
        alpha_equivalent(t1, t2),
    ensures
        t1.size() == t2.size(),
{
    lemma_nameless_size(t1, Seq::empty(), 0);
    lemma_nameless_size(t2, Seq::empty(), 0);
}

/// Whether a nameless form refers to the free identifier `x`.
pub open spec fn refers_free(n: Nameless, x: Seq<char>) -> bool
    decreases n,
{
    match n {
        Nameless::Ref(m) => m == Meaning::Free(x),
        Nameless::App(f, p) => refers_free(*f, x) || refers_free(*p, x),
        Nameless::Bind(_, ty, body) => refers_free(*ty, x) || refers_free(*body, x),
        Nameless::Cons(a, c) => refers_free(*a, x) || refers_free(*c, x),
    }
}

/// A nameless form refers to the free identifier `x` exactly when a free
/// identifier of the term means `x` in the scope.
proof fn lemma_refers_free(t: Tm, e: Scope, k: nat, x: Seq<char>)
    ensures
        refers_free(nameless(t, e, k), x) <==> exists|s: Seq<char>| #[trigger] t.free_in(s)
            && meaning(s, e) == Meaning::Free(x),
    decreases t,
{
    match t {
        Tm::Var(s0, _) => {
            if meaning(s0, e) == Meaning::Free(x) {
                assert(t.free_in(s0) && meaning(s0, e) == Meaning::Free(x));
            }
            if exists|s: Seq<char>| #[trigger] t.free_in(s) && meaning(s, e) == Meaning::Free(x) {
                let s = choose|s: Seq<char>| #[trigger] t.free_in(s) && meaning(s, e) == Meaning::Free(x);
            }
        },
        Tm::App(a, c, _) => {
            lemma_refers_free(*a, e, k, x);
            lemma_refers_free(*c, e, k, x);
            if refers_free(nameless(*a, e, k), x) {
                let s = choose|s: Seq<char>| #[trigger] a.free_in(s) && meaning(s, e) == Meaning::Free(x);
                assert(t.free_in(s));
            }
            if refers_free(nameless(*c, e, k), x) {
                let s = choose|s: Seq<char>| #[trigger] c.free_in(s) && meaning(s, e) == Meaning::Free(x);
                assert(t.free_in(s));
            }
            if exists|s: Seq<char>| #[trigger] t.free_in(s) && meaning(s, e) == Meaning::Free(x) {
                let s = choose|s: Seq<char>| #[trigger] t.free_in(s) && meaning(s, e) == Meaning::Free(x);
                if !a.free_in(s) {
                    assert(c.free_in(s));
                }
            }
        },
        Tm::Bind(kind, b, ty, body, _) => {
            lemma_refers_free(*ty, e, k, x);
            let e2 = e.push((b, Meaning::Bound(k)));
            assert(e2.drop_last() == e);
            lemma_refers_free(*body, e2, k + 1, x);
            if refers_free(nameless(*ty, e, k), x) {
                let s = choose|s: Seq<char>| #[trigger] ty.free_in(s) && meaning(s, e) == Meaning::Free(x);
                assert(t.free_in(s));
            }
            if exists|s: Seq<char>| #[trigger] t.free_in(s) && meaning(s, e) == Meaning::Free(x) {
                let s = choose|s: Seq<char>| #[trigger] t.free_in(s) && meaning(s, e) == Meaning::Free(x);
                if !ty.free_in(s) {
                    assert(body.free_in(s) && meaning(s, e2) == Meaning::Free(x));
                }
            }
            if exists|s: Seq<char>| #[trigger] body.free_in(s) && meaning(s, e2) == Meaning::Free(x) {
                let s = choose|s: Seq<char>| #[trigger] body.free_in(s) && meaning(s, e2) == Meaning::Free(x);
                assert(t.free_in(s));
            }
        },
        Tm::Cons(a, c, _) => {
            lemma_refers_free(*a, e, k, x);
            lemma_refers_free(*c, e, k, x);
            if refers_free(nameless(*a, e, k), x) {
                let s = choose|s: Seq<char>| #[trigger] a.free_in(s) && meaning(s, e) == Meaning::Free(x);
                assert(t.free_in(s));
            }
            if refers_free(nameless(*c, e, k), x) {
                let s = choose|s: Seq<char>| #[trigger] c.free_in(s) && meaning(s, e) == Meaning::Free(x);
                assert(t.free_in(s));
            }
            if exists|s: Seq<char>| #[trigger] t.free_in(s) && meaning(s, e) == Meaning::Free(x) {
                let s = choose|s: Seq<char>| #[trigger] t.free_in(s) && meaning(s, e) == Meaning::Free(x);
                if !a.free_in(s) {
                    assert(c.free_in(s));
                }
            }
        },
    }
}

/// Terms equal up to the names of their binders have the same free
/// identifiers.
pub proof fn lemma_renaming_keeps_free_names(t1: Tm, t2: Tm, x: Seq<char>)
    requires
        alpha_equivalent(t1, t2),
    ensures
        t1.free_in(x) == t2.free_in(x),
{
    let e = Seq::<(Seq<char>, Meaning)>::empty();
    lemma_refers_free(t1, e, 0, x);
    lemma_refers_free(t2, e, 0, x);
}

/// A meaning with the free identifier `x` turned into the binder at level
/// `d`, and binders at level `d` or deeper moved one level deeper.
pub open spec fn abstract_meaning(m: Meaning, x: Seq<char>, d: nat) -> Meaning {
    match m {
        Meaning::Free(s) => if s == x {
            Meaning::Bound(d)
        } else {
            Meaning::Free(s)
        },
        Meaning::Bound(j) => if j >= d {
            Meaning::Bound(j + 1)
        } else {
            Meaning::Bound(j)
        },
    }
}

/// A nameless form with the free identifier `x` bound at level `d`.
pub open spec fn abstract_free(n: Nameless, x: Seq<char>, d: nat) -> Nameless
    decreases n,
{
    match n {
        Nameless::Ref(m) => Nameless::Ref(abstract_meaning(m, x, d)),
        Nameless::App(f, p) => Nameless::App(
            Box::new(abstract_free(*f, x, d)),
            Box::new(abstract_free(*p, x, d)),
        ),
        Nameless::Bind(k, ty, body) => Nameless::Bind(
            k,
            Box::new(abstract_free(*ty, x, d)),
            Box::new(abstract_free(*body, x, d)),
        ),
        Nameless::Cons(a, c) => Nameless::Cons(
            Box::new(abstract_free(*a, x, d)),
            Box::new(abstract_free(*c, x, d)),
        ),
    }
}

proof fn lemma_abstract(t: Tm, e: Scope, f: Scope, k: nat, x: Seq<char>, d: nat)
    requires
        k >= d,
        forall|s: Seq<char>| #[trigger]
            t.free_in(s) ==> meaning(s, f) == abstract_meaning(meaning(s, e), x, d),
    ensures
        nameless(t, f, k + 1) == abstract_free(nameless(t, e, k), x, d),
    decreases t,
{
    match t {
        Tm::Var(s, _) => {
            assert(t.free_in(s));
        },
        Tm::App(a, c, _) => {
            assert forall|s: Seq<char>| #[trigger] a.free_in(s) implies t.free_in(s) by {}
            assert forall|s: Seq<char>| #[trigger] c.free_in(s) implies t.free_in(s) by {}
            lemma_abstract(*a, e, f, k, x, d);
            lemma_abstract(*c, e, f, k, x, d);
        },
        Tm::Bind(kind, b, ty, body, _) => {
            assert forall|s: Seq<char>| #[trigger] ty.free_in(s) implies t.free_in(s) by {}
            lemma_abstract(*ty, e, f, k, x, d);
            let e2 = e.push((b, Meaning::Bound(k)));
            let f2 = f.push((b, Meaning::Bound(k + 1)));
            assert(e2.drop_last() == e);
            assert(f2.drop_last() == f);
            assert forall|s: Seq<char>| #[trigger] body.free_in(s) implies meaning(s, f2)
                == abstract_meaning(meaning(s, e2), x, d) by {
                if s != b {
                    assert(t.free_in(s));
                }
            }
            lemma_abstract(*body, e2, f2, k + 1, x, d);
        },
        Tm::Cons(a, c, _) => {
            assert forall|s: Seq<char>| #[trigger] a.free_in(s) implies t.free_in(s) by {}
            assert forall|s: Seq<char>| #[trigger] c.free_in(s) implies t.free_in(s) by {}
            lemma_abstract(*a, e, f, k, x, d);
            lemma_abstract(*c, e, f, k, x, d);
        },
    }
}

/// Substitution for a free identifier does not depend on the names of the
/// binders of the term.
pub proof fn lemma_subst_renaming(t1: Tm, t2: Tm, x: Seq<char>, v: Tm)
    requires
        alpha_equivalent(t1, t2),
        t1.size() + v.size() < u64::MAX,
    ensures
        alpha_equivalent(subst(t1, x, v), subst(t2, x, v)),
{
    let e = Seq::<(Seq<char>, Meaning)>::empty();
    let f = e.push((x, Meaning::Bound(0)));
    assert(f.drop_last() == e);
    lemma_renaming_keeps_size(t1, t2);
    lemma_beta_root(x, t1, v, e, 0);
    lemma_beta_root(x, t2, v, e, 0);
    lemma_abstract(t1, e, f, 0, x, 0);
    lemma_abstract(t2, e, f, 0, x, 0);
}


/// The nameless form ignores every debug context.
pub proof fn lemma_nameless_erase(t: Tm, e: Scope, d: nat)
    ensures
        nameless(t.erase(), e, d) == nameless(t, e, d),
    decreases t,
{
    match t {
        Tm::Var(_, _) => {},
        Tm::App(f, p, _) => {
            lemma_nameless_erase(*f, e, d);
            lemma_nameless_erase(*p, e, d);
        },
        Tm::Bind(_, b, ty, body, _) => {
            lemma_nameless_erase(*ty, e, d);
            lemma_nameless_erase(*body, e.push((b, Meaning::Bound(d))), d + 1);
        },
        Tm::Cons(a, c, _) => {
            lemma_nameless_erase(*a, e, d);
            lemma_nameless_erase(*c, e, d);
        },
    }
}

} // verus!
