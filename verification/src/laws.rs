//! Properties of the kernel's operations that hold for all inputs.
use vstd::prelude::*;
use crate::reduce::{
    alpha_from, canonical_name, fixed_point_step, is_beta_eta_normal, is_lambda, normalize_fuel,
    normalize_spec, reduction_step, settle, settle_fuel, settles_within,
};
use crate::state::{
    definition_of, delta, delta_pass, delta_rounds, delta_upto, full_normal_form, is_defined,
    mentions_definitions, names_distinct, redefined, Definition,
};
use crate::subst::{lemma_subst_size, lemma_subst_unfold, subst, subst_fuel, fresh_from};
use crate::error::Fault;
use crate::nameless::{
    alpha_equivalent, lemma_alpha_normal_form, lemma_nameless_of_alpha_normal_form, reserved,
    unreserved,
};
use crate::renaming::{
    lemma_fixed_point_step_renaming, lemma_nameless_erase, lemma_normalize_free,
    lemma_reduction_step_renaming,
    lemma_renaming_keeps_free_names, lemma_renaming_keeps_size, lemma_settle_free,
    lemma_settle_renaming, lemma_settle_small_result, lemma_subst_renaming, settle_small,
};
use crate::names::{
    decimal, lemma_decimal_injective, lemma_universe_level_of_decimal, universe_root,
};
use crate::subst::{free_after_subst, lemma_subst_free_names};
use vstd::set_lib::{lemma_int_range, lemma_len_subset, lemma_len_union, lemma_map_size, set_int_range};
use crate::rules::{
    binder_name, captured, innermost_binding, is_universe, prop_name, set_name, typing,
    uncaptured_from,
};
use crate::state::definition_result;
use crate::term::{Binder, TermDebugContext, Tm};

verus! {

proof fn lemma_subst_fuel_self(t: Tm, x: Seq<char>, fuel: nat)
    ensures
        subst_fuel(t, x, Tm::Var(x, TermDebugContext::Ignore), fuel) == t,
    decreases fuel,
{
    if fuel > 0 {
        let f = (fuel - 1) as nat;
        match t {
            Tm::Var(s, db) => {},
            Tm::App(a, p, db) => {
                lemma_subst_fuel_self(*a, x, f);
                lemma_subst_fuel_self(*p, x, f);
            },
            Tm::Bind(k, b, ty, body, db) => {
                lemma_subst_fuel_self(*ty, x, f);
                lemma_subst_fuel_self(*body, x, f);
            },
            Tm::Cons(a, c, db) => {
                lemma_subst_fuel_self(*a, x, f);
                lemma_subst_fuel_self(*c, x, f);
            },
        }
    }
}

/// Replacing a variable by itself (with debug context `Ignore`) leaves a term unchanged.
pub proof fn lemma_replace_by_itself(t: Tm, x: Seq<char>)
    ensures
        subst(t, x, Tm::Var(x, TermDebugContext::Ignore)) == t,
{
    lemma_subst_fuel_self(t, x, t.size());
}

proof fn lemma_subst_fuel_eliminates(t: Tm, x: Seq<char>, v: Tm, fuel: nat)
    requires
        fuel >= t.size(),
        !v.free_in(x),
    ensures
        !subst_fuel(t, x, v, fuel).free_in(x),
    decreases t.size(),
{
    let f = (fuel - 1) as nat;
    match t {
        Tm::Var(s, db) => {},
        Tm::App(a, p, db) => {
            lemma_subst_fuel_eliminates(*a, x, v, f);
            lemma_subst_fuel_eliminates(*p, x, v, f);
        },
        Tm::Bind(k, b, ty, body, db) => {
            lemma_subst_fuel_eliminates(*ty, x, v, f);
            if b != x {
                if v.free_in(b) {
                    match fresh_from(b, 0, *body, v, x) {
                        Some(n) => {
                            let w = Tm::Var(b + decimal(n as nat), TermDebugContext::Ignore);
                            let body2 = subst_fuel(*body, b, w, f);
                            lemma_subst_unfold(*body, b, w);
                            lemma_subst_size(*body, b, w);
                            lemma_subst_fuel_eliminates(body2, x, v, f);
                        },
                        None => {
                            lemma_subst_fuel_eliminates(*body, x, v, f);
                        },
                    }
                } else {
                    lemma_subst_fuel_eliminates(*body, x, v, f);
                }
            }
        },
        Tm::Cons(a, c, db) => {
            lemma_subst_fuel_eliminates(*a, x, v, f);
            lemma_subst_fuel_eliminates(*c, x, v, f);
        },
    }
}

/// After replacing `x` by a value in which `x` does not occur free, `x` no
/// longer occurs free in the term: every free occurrence has been replaced.
pub proof fn lemma_replace_eliminates(t: Tm, x: Seq<char>, v: Tm)
    requires
        !v.free_in(x),
    ensures
        !subst(t, x, v).free_in(x),
{
    lemma_subst_fuel_eliminates(t, x, v, t.size());
}

/// Whether every binder at nesting depth `d >= n` is named `#d` (for binders
/// at depth `u64::MAX`, only the name and binding type are constrained).
pub open spec fn canonical(t: Tm, n: u64) -> bool
    decreases t,
{
    match t {
        Tm::Var(_, _) => true,
        Tm::App(a, p, _) => canonical(*a, n) && canonical(*p, n),
        Tm::Bind(_, b, ty, body, _) => b == canonical_name(n) && canonical(*ty, n) && (n
            == u64::MAX || canonical(*body, (n + 1) as u64)),
        Tm::Cons(a, c, _) => canonical(*a, n) && canonical(*c, n),
    }
}

proof fn lemma_alpha_canonical(t: Tm, n: u64)
    ensures
        canonical(alpha_from(t, n), n),
    decreases t.size(),
{
    match t {
        Tm::Var(_, _) => {},
        Tm::App(a, p, _) => {
            lemma_alpha_canonical(*a, n);
            lemma_alpha_canonical(*p, n);
        },
        Tm::Bind(k, b, ty, body, db) => {
            lemma_alpha_canonical(*ty, n);
            if n != u64::MAX {
                let w = Tm::Var(canonical_name(n), TermDebugContext::Ignore);
                lemma_subst_size(*body, b, w);
                lemma_alpha_canonical(subst(*body, b, w), (n + 1) as u64);
            }
        },
        Tm::Cons(a, c, _) => {
            lemma_alpha_canonical(*a, n);
            lemma_alpha_canonical(*c, n);
        },
    }
}

proof fn lemma_alpha_of_canonical(t: Tm, n: u64)
    requires
        canonical(t, n),
    ensures
        alpha_from(t, n) == t,
    decreases t.size(),
{
    match t {
        Tm::Var(_, _) => {},
        Tm::App(a, p, _) => {
            lemma_alpha_of_canonical(*a, n);
            lemma_alpha_of_canonical(*p, n);
        },
        Tm::Bind(k, b, ty, body, db) => {
            lemma_alpha_of_canonical(*ty, n);
            lemma_replace_by_itself(*body, b);
            if n != u64::MAX {
                lemma_alpha_of_canonical(*body, (n + 1) as u64);
            }
        },
        Tm::Cons(a, c, _) => {
            lemma_alpha_of_canonical(*a, n);
            lemma_alpha_of_canonical(*c, n);
        },
    }
}

/// α-normalization is idempotent: normalizing an α-normalized term changes nothing.
pub proof fn lemma_alpha_normalize_idempotent(t: Tm)
    ensures
        alpha_from(alpha_from(t, 0), 0) == alpha_from(t, 0),
{
    lemma_alpha_canonical(t, 0);
    lemma_alpha_of_canonical(alpha_from(t, 0), 0);
}

/// Term equality ignores debug contexts: a term equals itself with any other
/// debug context at its root.
pub proof fn lemma_equality_ignores_context(t: Tm, c: TermDebugContext)
    ensures
        t.with_ctx(c).erase() == t.erase(),
{
}

/// δ-reduction in a state without definitions changes nothing.
pub proof fn lemma_delta_without_definitions(t: Tm)
    ensures
        delta(t, Seq::<Definition>::empty()) == t,
{
}

/// After a successful definition the state defines the name with exactly the
/// given type and value, and still defines each name at most once.
pub proof fn lemma_definition_read_back(defs: Seq<Definition>, name: Seq<char>, ty: Tm, value: Tm)
    requires
        names_distinct(defs),
    ensures
        names_distinct(redefined(defs, name, ty, value)),
        definition_of(redefined(defs, name, ty, value), name) == Some((ty, value)),
{
    let r = redefined(defs, name, ty, value);
    if is_defined(defs, name) {
        let i = choose|i: int| 0 <= i < defs.len() && #[trigger] defs[i].0 == name;
        assert(r[i].0 == name);
    } else {
        assert(r[defs.len() as int].0 == name);
    }
}

/// A successful definition keeps every other definition: the type and value
/// defined for any other name are unchanged.
pub proof fn lemma_definition_keeps_others(
    defs: Seq<Definition>,
    name: Seq<char>,
    ty: Tm,
    value: Tm,
    other: Seq<char>,
)
    requires
        names_distinct(defs),
        other != name,
    ensures
        definition_of(redefined(defs, name, ty, value), other) == definition_of(defs, other),
{
    let r = redefined(defs, name, ty, value);
    lemma_definition_read_back(defs, name, ty, value);
    if is_defined(defs, other) {
        let j = choose|j: int| 0 <= j < defs.len() && #[trigger] defs[j].0 == other;
        assert(r[j] == defs[j]);
    } else {
    }
}

/// The universes: `Set` and `Prop` have type `Type`, `Type` has type `Type0`
/// and every `TypeN` has type `TypeM` with M = N + 1, each type pointing back
/// at the identifier it is the type of.
pub proof fn lemma_universe_types(
    db: TermDebugContext,
    defs: Seq<Definition>,
    st: Seq<(Seq<char>, Tm)>,
    fuel: nat,
    n: u64,
)
    requires
        fuel > 0,
        n < u64::MAX,
    ensures
        typing(Tm::Var(set_name(), db), defs, st, fuel) == Ok::<Tm, Fault>(
            Tm::Var(universe_root(), TermDebugContext::TypeOf(Box::new(db))),
        ),
        typing(Tm::Var(prop_name(), db), defs, st, fuel) == Ok::<Tm, Fault>(
            Tm::Var(universe_root(), TermDebugContext::TypeOf(Box::new(db))),
        ),
        typing(Tm::Var(universe_root(), db), defs, st, fuel) == Ok::<Tm, Fault>(
            Tm::Var(universe_root() + decimal(0), TermDebugContext::TypeOf(Box::new(db))),
        ),
        typing(Tm::Var(universe_root() + decimal(n as nat), db), defs, st, fuel) == Ok::<
            Tm,
            Fault,
        >(Tm::Var(universe_root() + decimal((n + 1) as nat), TermDebugContext::TypeOf(Box::new(db)))),
{
    let s = universe_root() + decimal(n as nat);
    lemma_universe_level_of_decimal(n);
}

/// An identifier that is no universe and is not bound on the stack takes the
/// type it was defined with in the state, and is undefined if it has none.
pub proof fn lemma_defined_name_type(
    name: Seq<char>,
    db: TermDebugContext,
    defs: Seq<Definition>,
    st: Seq<(Seq<char>, Tm)>,
    fuel: nat,
)
    requires
        fuel > 0,
        name != set_name(),
        name != prop_name(),
        !is_universe(name),
        innermost_binding(st, name, st.len()) is None,
    ensures
        typing(Tm::Var(name, db), defs, st, fuel) == match definition_of(defs, name) {
            Some(d) => Ok::<Tm, Fault>(d.0),
            None => Err(Fault::UndefinedIdentifier(name, db)),
        },
{
}

/// A variable bound on the stack takes the type of its innermost binding,
/// whatever the state defines.
pub proof fn lemma_bound_name_type(
    name: Seq<char>,
    db: TermDebugContext,
    defs: Seq<Definition>,
    st: Seq<(Seq<char>, Tm)>,
    ty: Tm,
    fuel: nat,
)
    requires
        fuel > 0,
        name != set_name(),
        name != prop_name(),
        !is_universe(name),
    ensures
        typing(Tm::Var(name, db), defs, st.push((name, ty)), fuel) == Ok::<Tm, Fault>(ty),
{
    let st2 = st.push((name, ty));
}

/// After a successful definition of a name that is no universe, the name
/// takes exactly the type it was defined with.
pub proof fn lemma_definition_typed_back(
    defs: Seq<Definition>,
    name: Seq<char>,
    ty: Tm,
    value: Tm,
    db: TermDebugContext,
    fuel: nat,
)
    requires
        names_distinct(defs),
        definition_result(defs, name, ty, value) is Ok,
        fuel > 0,
        name != set_name(),
        name != prop_name(),
        !is_universe(name),
    ensures
        typing(Tm::Var(name, db), definition_result(defs, name, ty, value)->Ok_0, Seq::empty(), fuel)
            == Ok::<Tm, Fault>(ty),
{
    lemma_definition_read_back(defs, name, ty, value);
    lemma_defined_name_type(name, db, redefined(defs, name, ty, value), Seq::empty(), fuel);
}

/// A definition is made exactly when the stated type (δ-reduced) has a type,
/// the value (δ-reduced) has a type, and that type matches the stated type
/// once both are fully normalized.
pub proof fn lemma_definition_checks_type(defs: Seq<Definition>, name: Seq<char>, ty: Tm, value: Tm)
    ensures
        definition_result(defs, name, ty, value) is Ok <==> {
            &&& typing(delta(ty, defs), defs, Seq::empty(), u64::MAX as nat) is Ok
            &&& typing(delta(value, defs), defs, Seq::empty(), u64::MAX as nat) is Ok
            &&& full_normal_form(
                typing(delta(value, defs), defs, Seq::empty(), u64::MAX as nat)->Ok_0,
                defs,
            ).erase() == full_normal_form(normalize_spec(delta(ty, defs)), defs).erase()
        },
{
}

/// α-normalization decides α-equivalence: two terms are equal up to the
/// names of their binders exactly when their α-normal forms are equal (as
/// `==` compares terms, ignoring debug contexts), for terms in which no name
/// reserved for α-normalization (starting with `#`) occurs free and whose
/// sizes stay within the range of `u64`.
pub proof fn lemma_alpha_normalize_identifies(t1: Tm, t2: Tm)
    requires
        unreserved(t1),
        unreserved(t2),
        t1.size() <= u64::MAX,
        t2.size() <= u64::MAX,
    ensures
        alpha_equivalent(t1, t2) <==> alpha_from(t1, 0).erase() == alpha_from(t2, 0).erase(),
{
    lemma_alpha_normal_form(t1);
    lemma_alpha_normal_form(t2);
    lemma_nameless_of_alpha_normal_form(t1);
    lemma_nameless_of_alpha_normal_form(t2);
}

proof fn lemma_normalize_fuel_stable(t: Tm, k: nat, f: nat)
    requires
        is_beta_eta_normal(normalize_fuel(t, k)),
        k <= f,
    ensures
        normalize_fuel(t, f) == normalize_fuel(t, k),
    decreases k,
{
    if k == 0 {
        if f > 0 {
        }
    } else {
        match crate::reduce::beta_step(t) {
            Some(t2) => lemma_normalize_fuel_stable(t2, (k - 1) as nat, (f - 1) as nat),
            None => match crate::reduce::eta_step(t) {
                Some(t2) => lemma_normalize_fuel_stable(t2, (k - 1) as nat, (f - 1) as nat),
                None => {},
            },
        }
    }
}

/// Normalization ends in the β-η normal form that the reduction sequence
/// reaches, when it reaches one within `u64::MAX` rounds; normalizing that
/// normal form again changes nothing.
pub proof fn lemma_normalize_reaches_normal_form(t: Tm, k: nat)
    requires
        k <= u64::MAX,
        is_beta_eta_normal(normalize_fuel(t, k)),
    ensures
        normalize_spec(t) == normalize_fuel(t, k),
        is_beta_eta_normal(normalize_spec(t)),
        normalize_spec(normalize_spec(t)) == normalize_spec(t),
{
    lemma_normalize_fuel_stable(t, k, u64::MAX as nat);
    lemma_normalize_fuel_stable(normalize_fuel(t, k), 0, u64::MAX as nat);
}

/// A fixed point expansion never changes the kind of node at the root of a
/// term, except that of the expanded fixed point itself.
proof fn lemma_fixed_point_step_root(t: Tm, inc: bool)
    requires
        fixed_point_step(t, inc) is Some,
        crate::reduce::fixed_point_redex(t, inc) is None,
    ensures
        is_lambda(fixed_point_step(t, inc)->0) == is_lambda(t),
{
}

/// Fixed point reduction succeeds as many times as it is called: a term that
/// has a fixed point expansion still has one after it.
pub proof fn lemma_fixed_point_reduce_repeats(t: Tm, inc: bool)
    requires
        fixed_point_step(t, inc) is Some,
    ensures
        fixed_point_step(fixed_point_step(t, inc)->0, inc) is Some,
    decreases t,
{
    let t2 = fixed_point_step(t, inc)->0;
    match crate::reduce::fixed_point_redex(t, inc) {
        Some(r) => {
            match r {
                Tm::App(f, p, _) => {
                },
                _ => {},
            }
        },
        None => match t {
            Tm::Var(_, _) => {},
            Tm::App(f, p, db) => {
                if fixed_point_step(*f, inc) is Some {
                    lemma_fixed_point_reduce_repeats(*f, inc);
                } else {
                    lemma_fixed_point_reduce_repeats(*p, inc);
                }
            },
            Tm::Bind(k, b, ty, body, db) => {
                if fixed_point_step(*body, inc) is Some {
                    lemma_fixed_point_reduce_repeats(*body, inc);
                    if crate::reduce::fixed_point_redex(*body, inc) is None {
                        lemma_fixed_point_step_root(*body, inc);
                    } else {
                    }
                } else {
                    lemma_fixed_point_reduce_repeats(*ty, inc);
                }
            },
            Tm::Cons(a, c, db) => {
                if fixed_point_step(*c, inc) is Some {
                    lemma_fixed_point_reduce_repeats(*c, inc);
                } else {
                    lemma_fixed_point_reduce_repeats(*a, inc);
                }
            },
        },
    }
}

/// Substitution replaces the free occurrences of `x` and captures nothing:
/// the free identifiers of `t` with `v` substituted for `x` are exactly
/// those of `t` other than `x`, and, when `x` occurs free in `t`, those of
/// `v` (for terms whose sizes stay within the range of renaming suffixes).
pub proof fn lemma_replace_free_names(t: Tm, x: Seq<char>, v: Tm)
    requires
        t.size() + v.size() < u64::MAX,
    ensures
        forall|z: Seq<char>| #[trigger] subst(t, x, v).free_in(z) == free_after_subst(t, x, v, z),
{
    assert forall|z: Seq<char>| #[trigger] subst(t, x, v).free_in(z) == free_after_subst(t, x, v, z) by {
        lemma_subst_free_names(t, x, v, z);
    }
}

/// When no suffix from `k` on gives an uncaptured name, every candidate from
/// `k` on is captured.
proof fn lemma_uncaptured_none(
    b: Seq<char>,
    k: u64,
    defs: Seq<Definition>,
    st: Seq<(Seq<char>, Tm)>,
    j: u64,
)
    requires
        uncaptured_from(b, k, defs, st) is None,
        k <= j,
    ensures
        captured(b + decimal(j as nat), defs, st),
    decreases u64::MAX - k,
{
    if k < j {
        lemma_uncaptured_none(b, (k + 1) as u64, defs, st, j);
    }
}

/// The suffix the search finds gives an uncaptured name.
proof fn lemma_uncaptured_some(b: Seq<char>, k: u64, defs: Seq<Definition>, st: Seq<(Seq<char>, Tm)>)
    requires
        uncaptured_from(b, k, defs, st) is Some,
    ensures
        !captured(b + decimal(uncaptured_from(b, k, defs, st)->0 as nat), defs, st),
    decreases u64::MAX - k,
{
    if captured(b + decimal(k as nat), defs, st) && k < u64::MAX {
        lemma_uncaptured_some(b, (k + 1) as u64, defs, st);
    }
}

/// A binder is typed under a name that is captured neither by the stack nor
/// by the state: a captured binder is renamed to a fresh name (for stacks
/// and states with fewer than `u64::MAX` entries in all).
pub proof fn lemma_binder_name_uncaptured(
    b: Seq<char>,
    defs: Seq<Definition>,
    st: Seq<(Seq<char>, Tm)>,
)
    requires
        st.len() + defs.len() < u64::MAX,
    ensures
        !captured(binder_name(b, defs, st), defs, st),
{
    broadcast use vstd::seq_lib::seq_to_set_is_finite, vstd::set_lib::lemma_set_union_finite_iff;

    if captured(b, defs, st) {
        if uncaptured_from(b, 0, defs, st) is None {
            let bound = st.map_values(|e: (Seq<char>, Tm)| e.0);
            let defined = defs.map_values(|d: Definition| d.0);
            let taken = bound.to_set().union(defined.to_set());
            bound.lemma_cardinality_of_set();
            defined.lemma_cardinality_of_set();
            lemma_len_union(bound.to_set(), defined.to_set());
            let range = set_int_range(0, u64::MAX + 1);
            lemma_int_range(0, u64::MAX + 1);
            let name = |k: int| b + decimal(k as nat);
            assert forall|j: int, k: int|
                range.contains(j) && range.contains(k) && #[trigger] name(j) == #[trigger] name(k)
                    implies j == k by {
                assert(decimal(j as nat) =~= name(j).skip(b.len() as int));
                assert(decimal(k as nat) =~= name(k).skip(b.len() as int));
                lemma_decimal_injective(j as nat, k as nat);
            }
            lemma_map_size(range, range.map(name), name);
            assert forall|s: Seq<char>| range.map(name).contains(s) implies taken.contains(s) by {
                let k = choose|k: int| range.contains(k) && name(k) == s;
                lemma_uncaptured_none(b, 0, defs, st, k as u64);
                if exists|i: int| 0 <= i < st.len() && #[trigger] st[i].0 == s {
                    let i = choose|i: int| 0 <= i < st.len() && #[trigger] st[i].0 == s;
                    assert(bound[i] == s);
                } else {
                    let i = choose|i: int| 0 <= i < defs.len() && #[trigger] defs[i].0 == s;
                    assert(defined[i] == s);
                }
            }
            lemma_len_subset(range.map(name), taken);
        } else {
            lemma_uncaptured_some(b, 0, defs, st);
        }
    }
}


/// A term in which no defined name occurs free is left unchanged by
/// δ-reduction.
pub proof fn lemma_delta_keeps_plain_terms(t: Tm, defs: Seq<Definition>)
    requires
        !mentions_definitions(t, defs),
    ensures
        delta(t, defs) == t,
{
}

proof fn lemma_delta_rounds_stable(t: Tm, defs: Seq<Definition>, k: nat)
    requires
        !mentions_definitions(delta_rounds(t, defs, k), defs),
    ensures
        delta_rounds(t, defs, k + 1) == delta_rounds(t, defs, k),
    decreases k,
{
    if k > 0 && mentions_definitions(t, defs) {
        lemma_delta_rounds_stable(delta_pass(t, defs), defs, (k - 1) as nat);
    }
}

/// When δ-reduction leaves no defined name free, a further δ-reduction
/// changes nothing.
pub proof fn lemma_delta_idempotent(t: Tm, defs: Seq<Definition>)
    requires
        !mentions_definitions(delta(t, defs), defs),
    ensures
        delta(delta(t, defs), defs) == delta(t, defs),
{
}

/// A δ-reduction pass does not change the full normal form of a term whose
/// δ-reduction leaves no defined name free.
pub proof fn lemma_delta_pass_keeps_normal_form(t: Tm, defs: Seq<Definition>)
    requires
        mentions_definitions(t, defs),
        !mentions_definitions(delta(t, defs), defs),
    ensures
        delta(delta_pass(t, defs), defs) == delta(t, defs),
        full_normal_form(delta_pass(t, defs), defs) == full_normal_form(t, defs),
{
    lemma_delta_rounds_stable(delta_pass(t, defs), defs, defs.len());
}

proof fn lemma_settle_fuel_stable(t: Tm, k: nat, f: nat)
    requires
        settles_within(t, k),
        k <= f,
    ensures
        settle_fuel(t, f) == settle_fuel(t, k),
    decreases k,
{
    match fixed_point_step(normalize_spec(t), false) {
        Some(t2) => lemma_settle_fuel_stable(t2, (k - 1) as nat, (f - 1) as nat),
        None => {},
    }
}

/// The reduction that normalization performs first does not change the full
/// normal form, when no defined name occurs free and normalization of the
/// reduced term reaches a β-η normal form within its budget.
pub proof fn lemma_reduction_step_keeps_normal_form(t1: Tm, t2: Tm, defs: Seq<Definition>)
    requires
        reduction_step(t1) == Some(t2),
        !mentions_definitions(t1, defs),
        !mentions_definitions(t2, defs),
        is_beta_eta_normal(normalize_fuel(t2, (u64::MAX - 1) as nat)),
    ensures
        settle(t1) == settle(t2),
        full_normal_form(t1, defs) == full_normal_form(t2, defs),
{
    lemma_normalize_fuel_stable(t2, (u64::MAX - 1) as nat, u64::MAX as nat);
    assert(normalize_spec(t1) == normalize_spec(t2));
}

/// A fixed point expansion of a β-η normal term does not change its full
/// normal form, when no defined name occurs free and the normalization loop
/// on the expanded term ends within its budget.
pub proof fn lemma_fixed_point_step_keeps_normal_form(t1: Tm, t2: Tm, defs: Seq<Definition>)
    requires
        is_beta_eta_normal(t1),
        fixed_point_step(t1, false) == Some(t2),
        !mentions_definitions(t1, defs),
        !mentions_definitions(t2, defs),
        settles_within(t2, (u64::MAX - 1) as nat),
    ensures
        settle(t1) == settle(t2),
        full_normal_form(t1, defs) == full_normal_form(t2, defs),
{
    lemma_normalize_fuel_stable(t1, 0, u64::MAX as nat);
    lemma_settle_fuel_stable(t2, (u64::MAX - 1) as nat, u64::MAX as nat);
}



/// Whether the value of every definition mentions only names defined before
/// it, as in a state built by definitions that never redefine a name.
pub open spec fn defined_in_order(defs: Seq<Definition>) -> bool {
    forall|i: int, j: int|
        0 <= i <= j < defs.len() ==> !(#[trigger] defs[i].2.free_in(defs[j].0))
}

/// Whether no name defined at position `m` or later occurs free in `t`.
spec fn absent_from(t: Tm, defs: Seq<Definition>, m: nat) -> bool {
    forall|j: int| m <= j < defs.len() ==> !(#[trigger] t.free_in(defs[j].0))
}


proof fn lemma_delta_upto_absent(t: Tm, defs: Seq<Definition>, m: nat, i: nat)
    requires
        defined_in_order(defs),
        absent_from(t, defs, m),
        1 <= m <= defs.len(),
        i <= defs.len(),
    ensures
        absent_from(delta_upto(t, defs, i), defs, m),
        i >= m ==> !delta_upto(t, defs, i).free_in(defs[m - 1].0),
    decreases i,
{
    if i > 0 {
        lemma_delta_upto_absent(t, defs, m, (i - 1) as nat);
        let u = delta_upto(t, defs, (i - 1) as nat);
        let d = defs[i - 1];
        assert forall|j: int| m <= j < defs.len() implies !(#[trigger] subst(u, d.0, d.2).free_in(
            defs[j].0,
        )) by {
            if subst(u, d.0, d.2).free_in(defs[j].0) {
                crate::subst::lemma_subst_free_subset(u, d.0, d.2, defs[j].0);
            }
        }
        if i == m {
            lemma_replace_eliminates(u, d.0, d.2);
        } else if i > m {
            if subst(u, d.0, d.2).free_in(defs[m - 1].0) {
                crate::subst::lemma_subst_free_subset(u, d.0, d.2, defs[m - 1].0);
            }
        }
    }
}

proof fn lemma_delta_rounds_absent(t: Tm, defs: Seq<Definition>, m: nat, k: nat)
    requires
        defined_in_order(defs),
        absent_from(t, defs, m),
        m <= defs.len(),
        m <= k,
    ensures
        !mentions_definitions(delta_rounds(t, defs, k), defs),
    decreases k,
{
    if mentions_definitions(t, defs) {
        let i = choose|i: int| 0 <= i < defs.len() && #[trigger] t.free_in(defs[i].0);
        assert(m >= 1);
        lemma_delta_upto_absent(t, defs, m, defs.len());
        lemma_delta_rounds_absent(delta_pass(t, defs), defs, (m - 1) as nat, (k - 1) as nat);
    }
}

/// δ-reduction to the greatest extent possible: when the value of every
/// definition mentions only names defined before it, no defined name occurs
/// free after δ-reduction.
pub proof fn lemma_delta_leaves_no_definitions(t: Tm, defs: Seq<Definition>)
    requires
        defined_in_order(defs),
    ensures
        !mentions_definitions(delta(t, defs), defs),
{
    lemma_delta_rounds_absent(t, defs, defs.len(), defs.len() + 1);
}


/// Whether every substitution of the first `i` δ-reduction steps from `t`
/// involves terms with fewer than `u64::MAX` nodes together.
pub open spec fn delta_upto_small(t: Tm, defs: Seq<Definition>, i: nat) -> bool
    decreases i,
{
    i == 0 || i > defs.len() || (delta_upto_small(t, defs, (i - 1) as nat) && delta_upto(
        t,
        defs,
        (i - 1) as nat,
    ).size() + defs[i - 1].2.size() < u64::MAX)
}

/// Whether every substitution of at most `rounds` δ-reduction passes from `t`
/// involves terms with fewer than `u64::MAX` nodes together.
pub open spec fn delta_small(t: Tm, defs: Seq<Definition>, rounds: nat) -> bool
    decreases rounds,
{
    rounds == 0 || !mentions_definitions(t, defs) || (delta_upto_small(t, defs, defs.len())
        && delta_small(delta_pass(t, defs), defs, (rounds - 1) as nat))
}

proof fn lemma_delta_upto_renaming(t1: Tm, t2: Tm, defs: Seq<Definition>, i: nat)
    requires
        alpha_equivalent(t1, t2),
        delta_upto_small(t1, defs, i),
        i <= defs.len(),
    ensures
        alpha_equivalent(delta_upto(t1, defs, i), delta_upto(t2, defs, i)),
    decreases i,
{
    if i > 0 {
        lemma_delta_upto_renaming(t1, t2, defs, (i - 1) as nat);
        let d = defs[i - 1];
        lemma_subst_renaming(
            delta_upto(t1, defs, (i - 1) as nat),
            delta_upto(t2, defs, (i - 1) as nat),
            d.0,
            d.2,
        );
    }
}

proof fn lemma_mentions_renaming(t1: Tm, t2: Tm, defs: Seq<Definition>)
    requires
        alpha_equivalent(t1, t2),
    ensures
        mentions_definitions(t1, defs) == mentions_definitions(t2, defs),
{
    if mentions_definitions(t1, defs) {
        let i = choose|i: int| 0 <= i < defs.len() && #[trigger] t1.free_in(defs[i].0);
        lemma_renaming_keeps_free_names(t1, t2, defs[i].0);
        assert(t2.free_in(defs[i].0));
    }
    if mentions_definitions(t2, defs) {
        let i = choose|i: int| 0 <= i < defs.len() && #[trigger] t2.free_in(defs[i].0);
        lemma_renaming_keeps_free_names(t1, t2, defs[i].0);
        assert(t1.free_in(defs[i].0));
    }
}

proof fn lemma_delta_rounds_renaming(t1: Tm, t2: Tm, defs: Seq<Definition>, k: nat)
    requires
        alpha_equivalent(t1, t2),
        delta_small(t1, defs, k),
    ensures
        alpha_equivalent(delta_rounds(t1, defs, k), delta_rounds(t2, defs, k)),
    decreases k,
{
    lemma_mentions_renaming(t1, t2, defs);
    if k > 0 && mentions_definitions(t1, defs) {
        lemma_delta_upto_renaming(t1, t2, defs, defs.len());
        lemma_delta_rounds_renaming(delta_pass(t1, defs), delta_pass(t2, defs), defs, (k - 1) as nat);
    }
}

proof fn lemma_delta_upto_free(t: Tm, defs: Seq<Definition>, i: nat, s: Seq<char>)
    requires
        delta_upto(t, defs, i).free_in(s),
        i <= defs.len(),
    ensures
        t.free_in(s) || exists|j: int| 0 <= j < i && #[trigger] defs[j].2.free_in(s),
    decreases i,
{
    if i > 0 {
        let d = defs[i - 1];
        let u = delta_upto(t, defs, (i - 1) as nat);
        crate::subst::lemma_subst_free_subset(u, d.0, d.2, s);
        if u.free_in(s) {
            lemma_delta_upto_free(t, defs, (i - 1) as nat, s);
        } else {
            assert(defs[i - 1].2.free_in(s));
        }
    }
}

proof fn lemma_delta_rounds_free(t: Tm, defs: Seq<Definition>, k: nat, s: Seq<char>)
    requires
        delta_rounds(t, defs, k).free_in(s),
    ensures
        t.free_in(s) || exists|j: int| 0 <= j < defs.len() && #[trigger] defs[j].2.free_in(s),
    decreases k,
{
    if k > 0 && mentions_definitions(t, defs) {
        lemma_delta_rounds_free(delta_pass(t, defs), defs, (k - 1) as nat, s);
        if delta_pass(t, defs).free_in(s) {
            lemma_delta_upto_free(t, defs, defs.len(), s);
        }
    }
}

/// Equivalent terms become identical after full normalization, for terms
/// that differ only in the names of their binders: renaming bound
/// identifiers does not change the full normal form. Stated for terms in
/// which, as in the values of the definitions, no name reserved for
/// α-normalization (starting with `#`) occurs free, and whose δ-reduction and
/// normalization only pass through terms with fewer than `u64::MAX` nodes.
pub proof fn lemma_renaming_keeps_normal_form(t1: Tm, t2: Tm, defs: Seq<Definition>)
    requires
        alpha_equivalent(t1, t2),
        unreserved(t1),
        forall|i: int| 0 <= i < defs.len() ==> unreserved(#[trigger] defs[i].2),
        delta_small(t1, defs, defs.len() + 1),
        settle_small(delta(t1, defs), u64::MAX as nat),
    ensures
        full_normal_form(t1, defs).erase() == full_normal_form(t2, defs).erase(),
{
    let d1 = delta(t1, defs);
    let d2 = delta(t2, defs);
    lemma_delta_rounds_renaming(t1, t2, defs, defs.len() + 1);
    let s1 = settle(d1);
    let s2 = settle(d2);
    lemma_settle_renaming(d1, d2, u64::MAX as nat);
    assert forall|s: Seq<char>| #[trigger] s1.free_in(s) implies !reserved(s) by {
        lemma_settle_free(d1, s, u64::MAX as nat);
        lemma_delta_rounds_free(t1, defs, defs.len() + 1, s);
        if !t1.free_in(s) {
            let j = choose|j: int| 0 <= j < defs.len() && #[trigger] defs[j].2.free_in(s);
            assert(unreserved(defs[j].2));
        }
    }
    assert forall|s: Seq<char>| #[trigger] s2.free_in(s) implies !reserved(s) by {
        lemma_renaming_keeps_free_names(s1, s2, s);
    }
    lemma_settle_small_result(d1, u64::MAX as nat);
    lemma_renaming_keeps_size(s1, s2);
    lemma_alpha_normalize_identifies(s1, s2);
}


/// Full normalization is idempotent: fully normalizing a full normal form
/// changes nothing, when the definitions mention only names defined before
/// them, no name reserved for α-normalization (starting with `#`) occurs
/// free in the term or the values of the definitions, and the normalization
/// loop reaches a normal form (no β-, η- or fixed point reduction left) of
/// fewer than `u64::MAX` nodes within its budget.
pub proof fn lemma_full_normalize_idempotent(t: Tm, defs: Seq<Definition>)
    requires
        defined_in_order(defs),
        unreserved(t),
        forall|i: int| 0 <= i < defs.len() ==> unreserved(#[trigger] defs[i].2),
        is_beta_eta_normal(settle(delta(t, defs))),
        fixed_point_step(settle(delta(t, defs)), false) is None,
        settle(delta(t, defs)).size() < u64::MAX,
    ensures
        full_normal_form(full_normal_form(t, defs), defs) == full_normal_form(t, defs),
{
    let d = delta(t, defs);
    let s = settle(d);
    let a = alpha_from(s, 0);
    let e = Seq::<(Seq<char>, crate::nameless::Meaning)>::empty();
    assert forall|z: Seq<char>| #[trigger] s.free_in(z) implies !reserved(z) by {
        lemma_settle_free(d, z, u64::MAX as nat);
        lemma_delta_rounds_free(t, defs, defs.len() + 1, z);
        if !t.free_in(z) {
            let j = choose|j: int| 0 <= j < defs.len() && #[trigger] defs[j].2.free_in(z);
            assert(unreserved(defs[j].2));
        }
    }
    lemma_nameless_of_alpha_normal_form(s);
    lemma_nameless_erase(a, e, 0);
    assert(alpha_equivalent(a, s));
    assert(alpha_equivalent(s, a));
    lemma_renaming_keeps_size(s, a);
    // no defined name occurs free in the normal form
    lemma_delta_leaves_no_definitions(t, defs);
    if mentions_definitions(a, defs) {
        let i = choose|i: int| 0 <= i < defs.len() && #[trigger] a.free_in(defs[i].0);
        lemma_renaming_keeps_free_names(s, a, defs[i].0);
        lemma_settle_free(d, defs[i].0, u64::MAX as nat);
        assert(d.free_in(defs[i].0));
    }
    lemma_delta_keeps_plain_terms(a, defs);
    // the α-normal form of a normal form is normal
    lemma_reduction_step_renaming(s, a);
    lemma_fixed_point_step_renaming(s, e, a, e, 0, false);
    assert(normalize_spec(a) == a);
    assert(settle(a) == a);
    lemma_alpha_normalize_idempotent(s);
}


/// β-η normalization before full normalization changes nothing, for a term
/// in which no defined name occurs free and whose normalization reaches a
/// β-η normal form within `k <= u64::MAX` rounds.
pub proof fn lemma_normalize_keeps_full_normal_form(t: Tm, defs: Seq<Definition>, k: nat)
    requires
        !mentions_definitions(t, defs),
        k <= u64::MAX,
        is_beta_eta_normal(normalize_fuel(t, k)),
    ensures
        full_normal_form(normalize_spec(t), defs) == full_normal_form(t, defs),
{
    let n = normalize_spec(t);
    lemma_normalize_reaches_normal_form(t, k);
    if mentions_definitions(n, defs) {
        let i = choose|i: int| 0 <= i < defs.len() && #[trigger] n.free_in(defs[i].0);
        lemma_normalize_free(t, defs[i].0, u64::MAX as nat);
        assert(t.free_in(defs[i].0));
    }
    lemma_delta_keeps_plain_terms(n, defs);
    lemma_delta_keeps_plain_terms(t, defs);
    assert(settle(n) == settle(t));
}

/// A definition is made exactly when the stated type and the value, both
/// δ-reduced, have types, and the type of the value and the δ-reduced stated
/// type have the same full normal form; for definitions that mention only
/// names defined before them, when the normalization of the δ-reduced stated
/// type reaches a β-η normal form within `k <= u64::MAX` rounds.
pub proof fn lemma_definition_compares_full_normal_forms(
    defs: Seq<Definition>,
    name: Seq<char>,
    ty: Tm,
    value: Tm,
    k: nat,
)
    requires
        defined_in_order(defs),
        k <= u64::MAX,
        is_beta_eta_normal(normalize_fuel(delta(ty, defs), k)),
    ensures
        definition_result(defs, name, ty, value) is Ok <==> {
            &&& typing(delta(ty, defs), defs, Seq::empty(), u64::MAX as nat) is Ok
            &&& typing(delta(value, defs), defs, Seq::empty(), u64::MAX as nat) is Ok
            &&& full_normal_form(
                typing(delta(value, defs), defs, Seq::empty(), u64::MAX as nat)->Ok_0,
                defs,
            ).erase() == full_normal_form(delta(ty, defs), defs).erase()
        },
{
    lemma_delta_leaves_no_definitions(ty, defs);
    lemma_normalize_keeps_full_normal_form(delta(ty, defs), defs, k);
    lemma_definition_checks_type(defs, name, ty, value);
}


/// Rebuilding an application from its head and arguments gives back the term
/// (as `==` compares terms, ignoring debug contexts); the head is no
/// application.
pub proof fn lemma_application_round_trip(t: Tm)
    ensures
        crate::inductive::applied(crate::inductive::app_head(t), crate::inductive::app_args(t)).erase()
            == t.erase(),
        !(crate::inductive::app_head(t) is App),
    decreases t,
{
    match t {
        Tm::App(f, p, _) => {
            lemma_application_round_trip(*f);
            let args = crate::inductive::app_args(t);
            assert(args.drop_last() =~= crate::inductive::app_args(*f));
        },
        _ => {},
    }
}

/// Whether `t` has a fixed point 𝐘x:A.B as a subterm whose body B is a
/// λ-abstraction, or any fixed point when `include_inductive` holds.
pub open spec fn has_fixed_point(t: Tm, include_inductive: bool) -> bool
    decreases t,
{
    match t {
        Tm::Var(_, _) => false,
        Tm::App(f, p, _) => has_fixed_point(*f, include_inductive) || has_fixed_point(
            *p,
            include_inductive,
        ),
        Tm::Bind(k, _, ty, body, _) => (k == Binder::FixedPoint && (is_lambda(*body)
            || include_inductive)) || has_fixed_point(*ty, include_inductive) || has_fixed_point(
            *body,
            include_inductive,
        ),
        Tm::Cons(a, c, _) => has_fixed_point(*a, include_inductive) || has_fixed_point(
            *c,
            include_inductive,
        ),
    }
}

/// Fixed point reduction succeeds exactly when the term has such a fixed
/// point; `fixed_point_reduce` leaves the term unchanged otherwise.
pub proof fn lemma_fixed_point_reduce_succeeds(t: Tm, include_inductive: bool)
    ensures
        (fixed_point_step(t, include_inductive) is Some) == has_fixed_point(t, include_inductive),
    decreases t,
{
    match t {
        Tm::App(f, p, _) => {
            lemma_fixed_point_reduce_succeeds(*f, include_inductive);
            lemma_fixed_point_reduce_succeeds(*p, include_inductive);
        },
        Tm::Bind(k, _, ty, body, _) => {
            lemma_fixed_point_reduce_succeeds(*ty, include_inductive);
            lemma_fixed_point_reduce_succeeds(*body, include_inductive);
        },
        Tm::Cons(a, c, _) => {
            lemma_fixed_point_reduce_succeeds(*a, include_inductive);
            lemma_fixed_point_reduce_succeeds(*c, include_inductive);
        },
        _ => {},
    }
}


/// Whether some subterm of `t`, at any depth, is a β-redex (λx:T.F) P.
pub open spec fn has_beta_redex(t: Tm) -> bool
    decreases t,
{
    match t {
        Tm::Var(_, _) => false,
        Tm::App(f, p, _) => is_lambda(*f) || has_beta_redex(*f) || has_beta_redex(*p),
        Tm::Bind(_, _, ty, body, _) => has_beta_redex(*ty) || has_beta_redex(*body),
        Tm::Cons(a, c, _) => has_beta_redex(*a) || has_beta_redex(*c),
    }
}

/// Whether `t` itself is an η-redex λx:T.F x in which x does not occur free in F.
pub open spec fn is_eta_redex(t: Tm) -> bool {
    t matches Tm::Bind(Binder::Lambda, x, _, body, _) && *body matches Tm::App(f, a, _) && *a matches Tm::Var(
        y,
        _,
    ) && y == x && !f.free_in(x)
}

/// Whether some subterm of `t`, at any depth, is an η-redex.
pub open spec fn has_eta_redex(t: Tm) -> bool
    decreases t,
{
    is_eta_redex(t) || match t {
        Tm::Var(_, _) => false,
        Tm::App(f, p, _) => has_eta_redex(*f) || has_eta_redex(*p),
        Tm::Bind(_, _, ty, body, _) => has_eta_redex(*ty) || has_eta_redex(*body),
        Tm::Cons(a, c, _) => has_eta_redex(*a) || has_eta_redex(*c),
    }
}

/// A β-reduction is performed exactly when the term has a β-redex
/// somewhere: under any binder, fixed points included, and inside
/// constructor terms.
pub proof fn lemma_beta_reduce_finds_every_redex(t: Tm)
    ensures
        (crate::reduce::beta_step(t) is Some) == has_beta_redex(t),
    decreases t,
{
    match t {
        Tm::App(f, p, _) => {
            lemma_beta_reduce_finds_every_redex(*f);
            lemma_beta_reduce_finds_every_redex(*p);
        },
        Tm::Bind(_, _, ty, body, _) => {
            lemma_beta_reduce_finds_every_redex(*ty);
            lemma_beta_reduce_finds_every_redex(*body);
        },
        Tm::Cons(a, c, _) => {
            lemma_beta_reduce_finds_every_redex(*a);
            lemma_beta_reduce_finds_every_redex(*c);
        },
        _ => {},
    }
}

/// An η-reduction is performed exactly when the term has an η-redex
/// somewhere, below any binder included.
pub proof fn lemma_eta_reduce_finds_every_redex(t: Tm)
    ensures
        (crate::reduce::eta_step(t) is Some) == has_eta_redex(t),
    decreases t,
{
    match t {
        Tm::App(f, p, _) => {
            lemma_eta_reduce_finds_every_redex(*f);
            lemma_eta_reduce_finds_every_redex(*p);
        },
        Tm::Bind(_, _, ty, body, _) => {
            lemma_eta_reduce_finds_every_redex(*ty);
            lemma_eta_reduce_finds_every_redex(*body);
        },
        Tm::Cons(a, c, _) => {
            lemma_eta_reduce_finds_every_redex(*a);
            lemma_eta_reduce_finds_every_redex(*c);
        },
        _ => {},
    }
}

/// Normalization that ends within its budget leaves no β- and no η-redex
/// anywhere in the term.
pub proof fn lemma_normalize_leaves_no_redex(t: Tm, k: nat)
    requires
        k <= u64::MAX,
        is_beta_eta_normal(normalize_fuel(t, k)),
    ensures
        !has_beta_redex(normalize_spec(t)),
        !has_eta_redex(normalize_spec(t)),
{
    lemma_normalize_reaches_normal_form(t, k);
    lemma_beta_reduce_finds_every_redex(normalize_spec(t));
    lemma_eta_reduce_finds_every_redex(normalize_spec(t));
}


/// A fixed point 𝐘x:A.B is only given a type that its body matches: when
/// its typing succeeds with type T, the body B (with x, renamed as bound
/// variables require, of type A) has a type whose full normal form is that
/// of T, and T is A.
pub proof fn lemma_fixed_point_type_is_body_type(
    b: Seq<char>,
    ty: Tm,
    body: Tm,
    db: TermDebugContext,
    defs: Seq<Definition>,
    st: Seq<(Seq<char>, Tm)>,
    fuel: nat,
)
    requires
        typing(Tm::Bind(Binder::FixedPoint, b, Box::new(ty), Box::new(body), db), defs, st, fuel) is Ok,
    ensures
        ({
            let t = typing(
                Tm::Bind(Binder::FixedPoint, b, Box::new(ty), Box::new(body), db),
                defs,
                st,
                fuel,
            )->Ok_0;
            let name = binder_name(b, defs, st);
            let inner = typing(
                crate::rules::renamed_body(body, b, name),
                defs,
                st.push((name, ty)),
                (fuel - 1) as nat,
            );
            &&& t == ty
            &&& inner is Ok
            &&& full_normal_form(inner->Ok_0, defs).erase() == full_normal_form(t, defs).erase()
        }),
{
}


/// Whether `rec` occurs free in `t` outside every λ-argument of a match
/// `x P1 P2 ...` on `x` (a binder of `x` ends the match on it, one of
/// `rec` hides it).
pub open spec fn occurs_outside_arms(t: Tm, x: Seq<char>, rec: Seq<char>) -> bool
    decreases t,
{
    match t {
        Tm::Var(s, _) => s == rec,
        Tm::App(f, p, _) => if crate::inductive::is_var_named(crate::inductive::app_head(t), x) {
            occurs_outside_arms(*f, x, rec) || (!is_lambda(*p) && occurs_outside_arms(*p, x, rec))
        } else {
            occurs_outside_arms(*f, x, rec) || occurs_outside_arms(*p, x, rec)
        },
        Tm::Bind(_, b, ty, body, _) => occurs_outside_arms(*ty, x, rec) || (b != rec
            && occurs_outside_arms(*body, if b == x { Seq::empty() } else { x }, rec)),
        Tm::Cons(a, c, _) => occurs_outside_arms(*a, x, rec) || occurs_outside_arms(*c, x, rec),
    }
}

proof fn lemma_decreasing_confined(t: Tm, i: nat, x: Seq<char>, rec: Seq<char>)
    requires
        crate::inductive::decreasing(t, i, x, rec),
    ensures
        !occurs_outside_arms(t, x, rec),
    decreases t, 3nat,
{
    match t {
        Tm::App(_, _, _) => {
            if crate::inductive::is_var_named(crate::inductive::app_head(t), x) {
                lemma_decreasing_arms_confined(t, i, x, rec);
            } else {
                lemma_decreasing_args_confined(t, i, x, rec);
            }
        },
        Tm::Bind(_, b, ty, body, _) => {
            lemma_decreasing_confined(*ty, i, x, rec);
            if b == x {
                lemma_decreasing_confined(*body, i, Seq::empty(), rec);
            } else if b != rec {
                lemma_decreasing_confined(*body, i, x, rec);
            }
        },
        Tm::Cons(a, c, _) => {
            lemma_decreasing_confined(*a, i, x, rec);
            lemma_decreasing_confined(*c, i, x, rec);
        },
        _ => {},
    }
}

proof fn lemma_decreasing_args_confined(t: Tm, i: nat, x: Seq<char>, rec: Seq<char>)
    requires
        t is App,
        !crate::inductive::is_var_named(crate::inductive::app_head(t), x),
        crate::inductive::decreasing_head(t, i, x, rec),
        crate::inductive::decreasing_args(t, i, x, rec),
    ensures
        !occurs_outside_arms(t, x, rec),
    decreases t, 1nat,
{
    match t {
        Tm::App(f, p, _) => {
            lemma_decreasing_confined(*p, i, x, rec);
            if *f is App {
                lemma_decreasing_args_confined(*f, i, x, rec);
            } else {
                lemma_decreasing_confined(*f, i, x, rec);
            }
        },
        _ => {},
    }
}

proof fn lemma_decreasing_arms_confined(t: Tm, i: nat, x: Seq<char>, rec: Seq<char>)
    requires
        t is App,
        crate::inductive::is_var_named(crate::inductive::app_head(t), x),
        crate::inductive::decreasing_head(t, i, x, rec),
        crate::inductive::decreasing_arms(t, i, x, rec),
    ensures
        !occurs_outside_arms(t, x, rec),
    decreases t, 1nat,
{
    match t {
        Tm::App(f, p, _) => {
            assert(crate::inductive::match_argument(*p, i, x, rec));
            if !is_lambda(*p) {
                lemma_decreasing_confined(*p, i, x, rec);
            }
            if *f is App {
                lemma_decreasing_arms_confined(*f, i, x, rec);
            } else {
                lemma_decreasing_confined(*f, i, x, rec);
            }
        },
        _ => {},
    }
}

/// A recursive function that passes the structural-decrease check calls
/// itself only inside the arms (λ-arguments) of a match on the decreasing
/// parameter: `rec` never occurs free outside them.
pub proof fn lemma_decreasing_calls_only_in_arms(t: Tm, i: nat, x: Seq<char>, rec: Seq<char>)
    requires
        crate::inductive::decreasing(t, i, x, rec),
    ensures
        !occurs_outside_arms(t, x, rec),
{
    lemma_decreasing_confined(t, i, x, rec);
}


/// Whether every recursive call `rec Q1 Q2 ...` in `t` has an argument
/// number `i`, which is an identifier and, while `active`, not `x` (a binder
/// of `x` ends that requirement, one of `rec` hides the calls).
pub open spec fn calls_on_other_variables(t: Tm, i: nat, rec: Seq<char>, x: Seq<char>, active: bool) -> bool
    decreases t,
{
    match t {
        Tm::Var(s, _) => s != rec,
        Tm::App(f, p, _) => if crate::inductive::is_var_named(crate::inductive::app_head(t), rec) {
            i < crate::inductive::app_args(t).len() && match crate::inductive::app_args(t)[i as int] {
                Tm::Var(s, _) => !(active && s == x),
                _ => false,
            }
        } else {
            calls_on_other_variables(*f, i, rec, x, active) && calls_on_other_variables(
                *p,
                i,
                rec,
                x,
                active,
            )
        },
        Tm::Bind(_, b, ty, body, _) => calls_on_other_variables(*ty, i, rec, x, active) && (b == rec
            || calls_on_other_variables(*body, i, rec, x, active && b != x)),
        Tm::Cons(a, c, _) => calls_on_other_variables(*a, i, rec, x, active)
            && calls_on_other_variables(*c, i, rec, x, active),
    }
}

/// Whether some binder of the λ-chain `u` is named `x`.
spec fn chain_binds(u: Tm, x: Seq<char>) -> bool
    decreases u,
{
    match u {
        Tm::Bind(Binder::Lambda, b, _, body, _) => b == x || chain_binds(*body, x),
        _ => false,
    }
}

proof fn lemma_lambda_names_bound(u: Tm, x: Seq<char>)
    requires
        crate::inductive::lambda_names(u).contains(x),
    ensures
        chain_binds(u, x),
    decreases u,
{
    match u {
        Tm::Bind(k, b, ty, body, _) => {
            if k == Binder::Lambda && b != x {
                let n = crate::inductive::lambda_names(u);
                let n2 = crate::inductive::lambda_names(*body);
                assert(n =~= n2.push(b));
                let j = choose|j: int| 0 <= j < n.len() && n[j] == x;
                assert(n2[j] == x);
                lemma_lambda_names_bound(*body, x);
            }
        },
        _ => {},
    }
}

proof fn lemma_decreasing_calls(t: Tm, i: nat, p: Seq<char>, rec: Seq<char>, x: Seq<char>, active: bool)
    requires
        crate::inductive::decreasing(t, i, p, rec),
    ensures
        calls_on_other_variables(t, i, rec, x, active),
    decreases t, 3nat,
{
    match t {
        Tm::App(_, _, _) => {
            if crate::inductive::is_var_named(crate::inductive::app_head(t), p) {
                lemma_decreasing_arms_calls(t, i, p, rec, x, active);
            } else {
                lemma_decreasing_args_calls(t, i, p, rec, x, active);
            }
        },
        Tm::Bind(_, b, ty, body, _) => {
            lemma_decreasing_calls(*ty, i, p, rec, x, active);
            if b == p {
                lemma_decreasing_calls(*body, i, Seq::empty(), rec, x, active && b != x);
            } else if b != rec {
                lemma_decreasing_calls(*body, i, p, rec, x, active && b != x);
            }
        },
        Tm::Cons(a, c, _) => {
            lemma_decreasing_calls(*a, i, p, rec, x, active);
            lemma_decreasing_calls(*c, i, p, rec, x, active);
        },
        _ => {},
    }
}

proof fn lemma_decreasing_args_calls(t: Tm, i: nat, p: Seq<char>, rec: Seq<char>, x: Seq<char>, active: bool)
    requires
        t is App,
        crate::inductive::decreasing_head(t, i, p, rec),
        crate::inductive::decreasing_args(t, i, p, rec),
    ensures
        calls_on_other_variables(t, i, rec, x, active),
    decreases t, 1nat,
{
    match t {
        Tm::App(f, q, _) => {
            lemma_decreasing_calls(*q, i, p, rec, x, active);
            if *f is App {
                lemma_decreasing_args_calls(*f, i, p, rec, x, active);
            } else {
                lemma_decreasing_calls(*f, i, p, rec, x, active);
            }
            assert(!crate::inductive::is_var_named(crate::inductive::app_head(t), rec)) by {
                if crate::inductive::is_var_named(crate::inductive::app_head(t), rec) {
                    lemma_head_rec_not_decreasing(t, i, p, rec);
                }
            }
        },
        _ => {},
    }
}

proof fn lemma_head_rec_not_decreasing(t: Tm, i: nat, p: Seq<char>, rec: Seq<char>)
    requires
        t is App,
        crate::inductive::is_var_named(crate::inductive::app_head(t), rec),
    ensures
        !crate::inductive::decreasing_head(t, i, p, rec),
    decreases t,
{
    match t {
        Tm::App(f, _, _) => {
            if *f is App {
                lemma_head_rec_not_decreasing(*f, i, p, rec);
            } else {
                assert(!crate::inductive::decreasing(*f, i, p, rec));
            }
        },
        _ => {},
    }
}

proof fn lemma_decreasing_arms_calls(t: Tm, i: nat, p: Seq<char>, rec: Seq<char>, x: Seq<char>, active: bool)
    requires
        t is App,
        crate::inductive::decreasing_head(t, i, p, rec),
        crate::inductive::decreasing_arms(t, i, p, rec),
    ensures
        calls_on_other_variables(t, i, rec, x, active),
    decreases t, 1nat,
{
    match t {
        Tm::App(f, q, _) => {
            assert(crate::inductive::match_argument(*q, i, p, rec));
            if is_lambda(*q) {
                let names = crate::inductive::lambda_names(*q);
                assert forall|y: Seq<char>| active && names.contains(y) && y == x implies chain_binds(*q, x) by {
                    lemma_lambda_names_bound(*q, x);
                }
                lemma_arm_calls(*q, names, i, p, rec, x, active);
            } else {
                lemma_decreasing_calls(*q, i, p, rec, x, active);
            }
            if *f is App {
                lemma_decreasing_arms_calls(*f, i, p, rec, x, active);
            } else {
                lemma_decreasing_calls(*f, i, p, rec, x, active);
            }
            assert(!crate::inductive::is_var_named(crate::inductive::app_head(t), rec)) by {
                if crate::inductive::is_var_named(crate::inductive::app_head(t), rec) {
                    lemma_head_rec_not_decreasing(t, i, p, rec);
                }
            }
        },
        _ => {},
    }
}

proof fn lemma_arm_calls(
    u: Tm,
    allowed: Seq<Seq<char>>,
    i: nat,
    p: Seq<char>,
    rec: Seq<char>,
    x: Seq<char>,
    active: bool,
)
    requires
        crate::inductive::decreasing_arm(u, allowed, i, p, rec),
        active && allowed.contains(x) ==> chain_binds(u, x),
    ensures
        calls_on_other_variables(u, i, rec, x, active),
    decreases u, 4nat,
{
    match u {
        Tm::Bind(Binder::Lambda, b, ty, body, _) => {
            lemma_decreasing_calls(*ty, i, p, rec, x, active);
            if b != rec {
                lemma_arm_calls(*body, allowed, i, p, rec, x, active && b != x);
            }
        },
        _ => {
            lemma_guarded_calls(u, i, p, allowed, rec, x, active);
        },
    }
}

proof fn lemma_guarded_calls(
    t: Tm,
    i: nat,
    p: Seq<char>,
    allowed: Seq<Seq<char>>,
    rec: Seq<char>,
    x: Seq<char>,
    active: bool,
)
    requires
        crate::inductive::guarded(t, i, p, allowed, rec),
        active ==> !allowed.contains(x),
    ensures
        calls_on_other_variables(t, i, rec, x, active),
    decreases t, 3nat,
{
    match t {
        Tm::App(_, _, _) => {
            if crate::inductive::is_var_named(crate::inductive::app_head(t), rec) {
                let a = crate::inductive::app_args(t)[i as int];
                let k = choose|k: int| 0 <= k < allowed.len() && crate::inductive::is_var_named(a, #[trigger] allowed[k]);
                assert(allowed.contains(allowed[k]));
            } else {
                lemma_guarded_args_calls(t, i, p, allowed, rec, x, active);
            }
        },
        Tm::Bind(_, b, ty, body, _) => {
            lemma_guarded_calls(*ty, i, p, allowed, rec, x, active);
            if b == p {
                lemma_decreasing_calls(*body, i, Seq::empty(), rec, x, active && b != x);
            } else if b != rec {
                match crate::inductive::first_position(allowed, b, 0) {
                    Some(n) => {
                        lemma_first_position(allowed, b, 0);
                        let a2 = allowed.remove(n as int);
                        assert forall|y: Seq<char>| a2.contains(y) implies allowed.contains(y) by {
                            let j = choose|j: int| 0 <= j < a2.len() && a2[j] == y;
                            if j < n {
                                assert(allowed[j] == y);
                            } else {
                                assert(allowed[j + 1] == y);
                            }
                        }
                        lemma_guarded_calls(*body, i, Seq::empty(), a2, rec, x, active && b != x);
                    },
                    None => {
                        lemma_guarded_calls(*body, i, Seq::empty(), allowed, rec, x, active && b != x);
                    },
                }
            }
        },
        Tm::Cons(a, c, _) => {
            lemma_guarded_calls(*a, i, p, allowed, rec, x, active);
            lemma_guarded_calls(*c, i, Seq::empty(), allowed, rec, x, active);
        },
        _ => {},
    }
}

proof fn lemma_first_position(s: Seq<Seq<char>>, b: Seq<char>, i: nat)
    requires
        crate::inductive::first_position(s, b, i) is Some,
    ensures
        crate::inductive::first_position(s, b, i)->0 < s.len(),
    decreases s.len() - i,
{
    if i < s.len() && s[i as int] != b {
        lemma_first_position(s, b, i + 1);
    }
}

proof fn lemma_guarded_args_calls(
    t: Tm,
    i: nat,
    p: Seq<char>,
    allowed: Seq<Seq<char>>,
    rec: Seq<char>,
    x: Seq<char>,
    active: bool,
)
    requires
        t is App,
        !crate::inductive::is_var_named(crate::inductive::app_head(t), rec),
        crate::inductive::guarded_head(t, i, p, allowed, rec),
        crate::inductive::guarded_args(t, i, p, allowed, rec),
        active ==> !allowed.contains(x),
    ensures
        calls_on_other_variables(t, i, rec, x, active),
    decreases t, 1nat,
{
    match t {
        Tm::App(f, q, _) => {
            lemma_guarded_calls(*q, i, p, allowed, rec, x, active);
            if *f is App {
                lemma_guarded_args_calls(*f, i, p, allowed, rec, x, active);
            } else {
                lemma_guarded_calls(*f, i, p, allowed, rec, x, active);
            }
        },
        _ => {},
    }
}

/// Every recursive call that passes the structural-decrease check has an
/// argument at the position of the decreasing parameter, and that argument
/// is a variable other than the parameter itself: a call on the parameter,
/// or on a compound term, is refused.
pub proof fn lemma_decreasing_calls_on_smaller_variables(t: Tm, i: nat, x: Seq<char>, rec: Seq<char>)
    requires
        crate::inductive::decreasing(t, i, x, rec),
    ensures
        calls_on_other_variables(t, i, rec, x, true),
{
    lemma_decreasing_calls(t, i, x, rec, x, true);
}


/// Whether `t2` is `t` with exactly one β-redex (λx:T.F) P, at any position,
/// replaced by F with P substituted for x (up to debug contexts).
pub open spec fn beta_contracts(t: Tm, t2: Tm) -> bool
    decreases t,
{
    match t {
        Tm::Var(_, _) => false,
        Tm::App(f, p, _) => (match *f {
            Tm::Bind(Binder::Lambda, x, _, body, _) => t2.erase() == subst(*body, x, *p).erase(),
            _ => false,
        }) || match t2 {
            Tm::App(f2, p2, _) => (beta_contracts(*f, *f2) && p2.erase() == p.erase()) || (
            f2.erase() == f.erase() && beta_contracts(*p, *p2)),
            _ => false,
        },
        Tm::Bind(k, x, ty, body, _) => match t2 {
            Tm::Bind(k2, x2, ty2, body2, _) => k2 == k && x2 == x && ((beta_contracts(*ty, *ty2)
                && body2.erase() == body.erase()) || (ty2.erase() == ty.erase() && beta_contracts(
                *body,
                *body2,
            ))),
            _ => false,
        },
        Tm::Cons(a, c, _) => match t2 {
            Tm::Cons(a2, c2, _) => (beta_contracts(*a, *a2) && c2.erase() == c.erase()) || (
            a2.erase() == a.erase() && beta_contracts(*c, *c2)),
            _ => false,
        },
    }
}

/// Whether `t2` is `t` with exactly one η-redex λx:T.F x (x not free in F),
/// at any position, replaced by F (up to debug contexts).
pub open spec fn eta_contracts(t: Tm, t2: Tm) -> bool
    decreases t,
{
    (is_eta_redex(t) && match t {
        Tm::Bind(_, _, _, body, _) => match *body {
            Tm::App(f, _, _) => t2.erase() == f.erase(),
            _ => false,
        },
        _ => false,
    }) || match t {
        Tm::Var(_, _) => false,
        Tm::App(f, p, _) => match t2 {
            Tm::App(f2, p2, _) => (eta_contracts(*f, *f2) && p2.erase() == p.erase()) || (
            f2.erase() == f.erase() && eta_contracts(*p, *p2)),
            _ => false,
        },
        Tm::Bind(k, x, ty, body, _) => match t2 {
            Tm::Bind(k2, x2, ty2, body2, _) => k2 == k && x2 == x && ((eta_contracts(*ty, *ty2)
                && body2.erase() == body.erase()) || (ty2.erase() == ty.erase() && eta_contracts(
                *body,
                *body2,
            ))),
            _ => false,
        },
        Tm::Cons(a, c, _) => match t2 {
            Tm::Cons(a2, c2, _) => (eta_contracts(*a, *a2) && c2.erase() == c.erase()) || (
            a2.erase() == a.erase() && eta_contracts(*c, *c2)),
            _ => false,
        },
    }
}

proof fn lemma_erase_with_ctx(t: Tm, c: TermDebugContext)
    ensures
        t.with_ctx(c).erase() == t.erase(),
{
}

/// A β-reduction step contracts exactly one β-redex of the term.
pub proof fn lemma_beta_reduce_contracts_one_redex(t: Tm)
    requires
        crate::reduce::beta_step(t) is Some,
    ensures
        beta_contracts(t, crate::reduce::beta_step(t)->0),
    decreases t,
{
    match t {
        Tm::App(f, p, db) => match *f {
            Tm::Bind(Binder::Lambda, x, _, body, _) => {
                lemma_erase_with_ctx(subst(*body, x, *p), db);
            },
            _ => {
                if crate::reduce::beta_step(*f) is Some {
                    lemma_beta_reduce_contracts_one_redex(*f);
                } else {
                    lemma_beta_reduce_contracts_one_redex(*p);
                }
            },
        },
        Tm::Bind(_, _, ty, body, _) => {
            if crate::reduce::beta_step(*ty) is Some {
                lemma_beta_reduce_contracts_one_redex(*ty);
            } else {
                lemma_beta_reduce_contracts_one_redex(*body);
            }
        },
        Tm::Cons(a, c, _) => {
            if crate::reduce::beta_step(*a) is Some {
                lemma_beta_reduce_contracts_one_redex(*a);
            } else {
                lemma_beta_reduce_contracts_one_redex(*c);
            }
        },
        _ => {},
    }
}

/// An η-reduction step contracts exactly one η-redex of the term.
pub proof fn lemma_eta_reduce_contracts_one_redex(t: Tm)
    requires
        crate::reduce::eta_step(t) is Some,
    ensures
        eta_contracts(t, crate::reduce::eta_step(t)->0),
    decreases t,
{
    if crate::reduce::eta_redex(t) is None {
        match t {
            Tm::App(f, p, _) => {
                if crate::reduce::eta_step(*f) is Some {
                    lemma_eta_reduce_contracts_one_redex(*f);
                } else {
                    lemma_eta_reduce_contracts_one_redex(*p);
                }
            },
            Tm::Bind(_, _, ty, body, _) => {
                if crate::reduce::eta_step(*ty) is Some {
                    lemma_eta_reduce_contracts_one_redex(*ty);
                } else {
                    lemma_eta_reduce_contracts_one_redex(*body);
                }
            },
            Tm::Cons(a, c, _) => {
                if crate::reduce::eta_step(*a) is Some {
                    lemma_eta_reduce_contracts_one_redex(*a);
                } else {
                    lemma_eta_reduce_contracts_one_redex(*c);
                }
            },
            _ => {},
        }
    }
}

} // verus!
