//! The typing rules of the calculus: what type inference gives for each
//! term, with the bound variables of a stack, in a state of definitions.
use vstd::prelude::*;
use crate::error::Fault;
use crate::inductive::{chain_body, decreasing, is_var_named, positivity_violation};
use crate::matching::match_replaced;
use crate::names::{decimal, universe_level, universe_root};
use crate::reduce::{fixed_point_step, normalize_spec, settle};
use crate::state::{definition_of, delta, full_normal_form, is_defined, Definition};
use crate::subst::subst;
use crate::term::{Binder, Term, TermDebugContext, Tm};

verus! {

/// The model of a stack of bound variables and their types.
pub open spec fn stack_model(stack: Seq<(String, Term)>) -> Seq<(Seq<char>, Tm)> {
    stack.map_values(|e: (String, Term)| (e.0@, e.1@))
}

/// The identifier `Set`.
pub open spec fn set_name() -> Seq<char> {
    seq!['S', 'e', 't']
}

/// The identifier `Prop`.
pub open spec fn prop_name() -> Seq<char> {
    seq!['P', 'r', 'o', 'p']
}

/// The level above `n` (wrapping at `u64::MAX`).
pub open spec fn next_level(n: u64) -> u64 {
    if n == u64::MAX {
        0
    } else {
        (n + 1) as u64
    }
}

/// Whether an identifier names a universe that types may live in:
/// `Type` or `Type<n>`.
pub open spec fn is_universe(s: Seq<char>) -> bool {
    s == universe_root() || universe_level(s) is Some
}

/// The position of the innermost binding of `s` on the stack, searching the
/// first `i` entries.
pub open spec fn innermost_binding(stack: Seq<(Seq<char>, Tm)>, s: Seq<char>, i: nat) -> Option<
    int,
>
    decreases i,
{
    if i == 0 || i > stack.len() {
        None
    } else if stack[i - 1].0 == s {
        Some(i - 1)
    } else {
        innermost_binding(stack, s, (i - 1) as nat)
    }
}

/// The type of the identifier `s` with debug context `db`: `Set` and `Prop`
/// have type `Type`, `Type` has type `Type0`, `Type<n>` has type
/// `Type<n+1>` (these three carry the context `TypeOf(db)`); a variable bound
/// on the stack has the type of its innermost binding; a defined name has its
/// defined type; other identifiers have none.
pub open spec fn identifier_type(
    s: Seq<char>,
    db: TermDebugContext,
    stack: Seq<(Seq<char>, Tm)>,
    defs: Seq<Definition>,
) -> Option<Tm> {
    let ctx = TermDebugContext::TypeOf(Box::new(db));
    if s == set_name() || s == prop_name() {
        Some(Tm::Var(universe_root(), ctx))
    } else if s == universe_root() {
        Some(Tm::Var(universe_root() + decimal(0), ctx))
    } else if universe_level(s) is Some {
        Some(Tm::Var(universe_root() + decimal(next_level(universe_level(s)->0) as nat), ctx))
    } else {
        match innermost_binding(stack, s, stack.len()) {
            Some(i) => Some(stack[i].1),
            None => match definition_of(defs, s) {
                Some(d) => Some(d.0),
                None => None,
            },
        }
    }
}

/// Whether `x` is bound on the stack or defined in the state.
pub open spec fn captured(x: Seq<char>, defs: Seq<Definition>, stack: Seq<(Seq<char>, Tm)>) -> bool {
    (exists|i: int| 0 <= i < stack.len() && #[trigger] stack[i].0 == x) || is_defined(defs, x)
}

/// The least suffix `k' >= k` (up to `u64::MAX`) making `b` followed by it uncaptured.
pub open spec fn uncaptured_from(
    b: Seq<char>,
    k: u64,
    defs: Seq<Definition>,
    stack: Seq<(Seq<char>, Tm)>,
) -> Option<u64>
    decreases u64::MAX - k,
{
    if !captured(b + decimal(k as nat), defs, stack) {
        Some(k)
    } else if k == u64::MAX {
        None
    } else {
        uncaptured_from(b, (k + 1) as u64, defs, stack)
    }
}

/// The name under which a binder `b` is typed: `b` itself when it is not
/// captured, else `b` followed by the least decimal suffix that is not.
pub open spec fn binder_name(b: Seq<char>, defs: Seq<Definition>, stack: Seq<(Seq<char>, Tm)>) -> Seq<
    char,
> {
    if captured(b, defs, stack) {
        match uncaptured_from(b, 0, defs, stack) {
            Some(k) => b + decimal(k as nat),
            None => b,
        }
    } else {
        b
    }
}

/// The body of a binder `b` renamed to `name`.
pub open spec fn renamed_body(body: Tm, b: Seq<char>, name: Seq<char>) -> Tm {
    if name == b {
        body
    } else {
        subst(body, b, Tm::Var(name, TermDebugContext::Ignore))
    }
}


/// The homonymous normal form: δ-reduction, then the normalization loop.
pub open spec fn hnf(t: Tm, defs: Seq<Definition>) -> Tm {
    settle(delta(t, defs))
}

/// Whether a term is an identifier naming a universe.
pub open spec fn is_universe_tm(t: Tm) -> bool {
    t matches Tm::Var(s, _) && is_universe(s)
}

/// A term after one fixed point expansion, if it has one.
pub open spec fn expanded(t: Tm, include_inductive: bool) -> Tm {
    match fixed_point_step(t, include_inductive) {
        Some(r) => r,
        None => t,
    }
}

/// The type of a function, unrolled once when it is a fixed point 𝐘x:A.B:
/// B[x:=𝐘x:A.B], then β-η normalized.
pub open spec fn unrolled(t: Tm) -> Tm {
    match t {
        Tm::Bind(Binder::FixedPoint, b, _, body, _) => normalize_spec(subst(*body, b, t)),
        _ => t,
    }
}

/// The parameters of a chain of λ-abstractions λx1:A1.λx2:A2. ... C,
/// outermost first.
pub open spec fn lambda_spine(t: Tm) -> Seq<(Seq<char>, Tm)>
    decreases t,
{
    match t {
        Tm::Bind(Binder::Lambda, b, ty, body, _) => seq![(b, *ty)] + lambda_spine(*body),
        _ => Seq::empty(),
    }
}

/// The part of a type on which a match is possible: the body B of 𝐘S:I.B
/// when I is an identifier, else the type itself.
pub open spec fn shape_body(t: Tm) -> Tm {
    match t {
        Tm::Bind(Binder::FixedPoint, _, ty, body, _) => if *ty is Var {
            *body
        } else {
            t
        },
        _ => t,
    }
}

/// The name R when a match is possible on a term of type `t`: `t`'s shape
/// body is ∀R:Type.∀T:R. ...
pub open spec fn match_generic(t: Tm) -> Option<Seq<char>> {
    match shape_body(t) {
        Tm::Bind(Binder::Forall, r, rty, rest, _) => if is_var_named(*rty, universe_root()) {
            match *rest {
                Tm::Bind(Binder::Forall, _, t4, _, _) => if is_var_named(*t4, r) {
                    Some(r)
                } else {
                    None
                },
                _ => None,
            }
        } else {
            None
        },
        _ => None,
    }
}

/// The first violation of strict positivity of `rec` in the binder types of
/// the ∀-chain `chain`, as an error.
pub open spec fn inductive_check(chain: Tm, rec: Seq<char>) -> Option<Fault>
    decreases chain,
{
    match chain {
        Tm::Bind(Binder::Forall, _, ty, body, _) => match positivity_violation(*ty, rec) {
            Some((true, sub)) => Some(Fault::NegativeInductiveDefinition(sub, sub.ctx(), ty.ctx())),
            Some((false, sub)) => Some(
                Fault::MisshapenInductiveDefinition(sub, sub.ctx(), ty.ctx()),
            ),
            None => inductive_check(*body, rec),
        },
        _ => None,
    }
}

/// The type of `t` with the bound variables `st`, in the state `defs`,
/// nesting type inference at most `fuel` levels deep.
///
/// * An identifier takes the type `identifier_type` gives.
/// * λx:A.B takes type ∀x:A.T, T being the type of B with x of type A, once
///   A is checked to be a type; x is renamed when it is captured.
/// * ∀x:A.B takes the type of B, which must be a type, with x of type A; it
///   is `Set` when that type is x itself (an inductive type ∀R:W.∀T:R.M, in
///   whose M the name T must occur only strictly positively).
/// * 𝐘x:A.B takes type A, provided B (with x of type A) has type A up to
///   full normalization; B must be a primitive recursive function or an
///   inductive type.
/// * ℺A.B takes type A when one expansion of A gives the type of B.
/// * A B: see `typing_application`.
pub open spec fn typing(t: Tm, defs: Seq<Definition>, st: Seq<(Seq<char>, Tm)>, fuel: nat) -> Result<
    Tm,
    Fault,
>
    decreases fuel, 4nat, 0nat,
{
    if fuel == 0 {
        Err(Fault::InferenceDepthExceeded)
    } else {
        let f = (fuel - 1) as nat;
        match t {
            Tm::Var(s, db) => match identifier_type(s, db, st, defs) {
                Some(ty) => Ok(ty),
                None => Err(Fault::UndefinedIdentifier(s, db)),
            },
            Tm::App(_, _, _) => typing_application(t, defs, st, f),
            Tm::Bind(Binder::Lambda, _, _, _, _) => typing_lambda(t, defs, st, f),
            Tm::Bind(Binder::Forall, _, _, _, _) => typing_forall(t, defs, st, f),
            Tm::Bind(Binder::FixedPoint, _, _, _, _) => typing_fixed_point(t, defs, st, f),
            Tm::Cons(_, _, _) => typing_constructor(t, defs, st, f),
        }
    }
}

/// The error, if any, by which `ty` is no valid binding type; a valid one has
/// a type that normalizes to an identifier whose type normalizes to a universe.
pub open spec fn binding_check(ty: Tm, defs: Seq<Definition>, st: Seq<(Seq<char>, Tm)>, f: nat) -> Option<
    Fault,
>
    decreases f + 1, 2nat, 0nat,
{
    match typing(ty, defs, st, f) {
        Err(e) => Some(e),
        Ok(tt0) => match typing(tt0, defs, st, f) {
            Err(e) => Some(e),
            Ok(_) => {
                let tt = hnf(tt0, defs);
                if tt is Var {
                    match typing(tt, defs, st, f) {
                        Err(e) => Some(e),
                        Ok(ttt0) => match typing(ttt0, defs, st, f) {
                            Err(e) => Some(e),
                            Ok(_) => if is_universe_tm(hnf(ttt0, defs)) {
                                None
                            } else {
                                Some(Fault::InvalidType(ty, tt, ty.ctx()))
                            },
                        },
                    }
                } else {
                    Some(Fault::InvalidType(ty, tt, ty.ctx()))
                }
            },
        },
    }
}

/// The type of a λ-abstraction.
pub open spec fn typing_lambda(t: Tm, defs: Seq<Definition>, st: Seq<(Seq<char>, Tm)>, f: nat) -> Result<
    Tm,
    Fault,
>
    decreases f + 1, 3nat, 0nat,
{
    match t {
        Tm::Bind(Binder::Lambda, b, ty, body, db) => match binding_check(*ty, defs, st, f) {
            Some(e) => Err(e),
            None => {
                let name = binder_name(b, defs, st);
                let body2 = renamed_body(*body, b, name);
                match typing(body2, defs, st.push((name, *ty)), f) {
                    Err(e) => Err(e),
                    Ok(inner) => Ok(
                        Tm::Bind(
                            Binder::Forall,
                            name,
                            ty,
                            Box::new(inner),
                            TermDebugContext::TypeOf(Box::new(db)),
                        ),
                    ),
                }
            },
        },
        _ => Err(Fault::InvalidInstance),
    }
}

/// Whether the type `inner` of the body of a product is valid: it normalizes
/// to an identifier whose type is a universe.
pub open spec fn product_check(
    inner: Tm,
    defs: Seq<Definition>,
    st: Seq<(Seq<char>, Tm)>,
    f: nat,
) -> Result<bool, Fault>
    decreases f + 1, 1nat, 0nat,
{
    if inner is Var {
        match typing(inner, defs, st, f) {
            Err(e) => Err(e),
            Ok(it0) => match typing(it0, defs, st, f) {
                Err(e) => Err(e),
                Ok(_) => Ok(is_universe_tm(full_normal_form(it0, defs))),
            },
        }
    } else {
        Ok(false)
    }
}

/// The error, if any, of the body ∀T:R.M of an inductive type ∀R:W.∀T:R.M:
/// T must occur only strictly positively in M.
pub open spec fn motive_check(body: Tm) -> Option<Fault> {
    match body {
        Tm::Bind(Binder::Forall, t, _, m, _) => match positivity_violation(*m, t) {
            Some((true, sub)) => Some(Fault::NegativeInductiveDefinition(sub, sub.ctx(), m.ctx())),
            Some((false, sub)) => Some(Fault::MisshapenInductiveDefinition(sub, sub.ctx(), m.ctx())),
            None => None,
        },
        _ => None,
    }
}

/// The type of a product ∀x:A.B (with debug context `db`) once the body,
/// with its binder renamed to `name`, is `body2` and has type `inner0`.
pub open spec fn forall_result(
    inner0: Tm,
    body2: Tm,
    name: Seq<char>,
    db: TermDebugContext,
    defs: Seq<Definition>,
    st2: Seq<(Seq<char>, Tm)>,
    f: nat,
) -> Result<Tm, Fault>
    decreases f + 1, 2nat, 0nat,
{
    let inner1 = if body2.free_in(name) {
        inner0.with_ctx(TermDebugContext::TypeOf(Box::new(db)))
    } else {
        inner0
    };
    match typing(inner1, defs, st2, f) {
        Err(e) => Err(e),
        Ok(_) => {
            let inner = hnf(inner1, defs);
            match product_check(inner, defs, st2, f) {
                Err(e) => Err(e),
                Ok(false) => Err(Fault::InvalidType(body2, inner, body2.ctx())),
                Ok(true) => if is_var_named(inner, name) {
                    match motive_check(body2) {
                        Some(e) => Err(e),
                        None => Ok(Tm::Var(set_name(), TermDebugContext::TypeOf(Box::new(db)))),
                    }
                } else {
                    Ok(inner)
                },
            }
        },
    }
}

/// The type of a product ∀x:A.B.
pub open spec fn typing_forall(t: Tm, defs: Seq<Definition>, st: Seq<(Seq<char>, Tm)>, f: nat) -> Result<
    Tm,
    Fault,
>
    decreases f + 1, 3nat, 0nat,
{
    match t {
        Tm::Bind(Binder::Forall, b, ty, body, db) => match binding_check(*ty, defs, st, f) {
            Some(e) => Err(e),
            None => {
                let name = binder_name(b, defs, st);
                let body2 = renamed_body(*body, b, name);
                let st2 = st.push((name, *ty));
                match typing(body2, defs, st2, f) {
                    Err(e) => Err(e),
                    Ok(inner0) => forall_result(inner0, body2, name, db, defs, st2, f),
                }
            },
        },
        _ => Err(Fault::InvalidInstance),
    }
}

/// The error, if any, of a recursive function λx1:A1. ... C bound to `rec`,
/// searching from parameter number `n` on, with the parameters before it bound
/// on `st`; a valid one has some Ai, not mentioning `rec` nor after one that
/// does, that is an inductive type (of type `Set`, with the shape that
/// `match_generic` accepts), with C `decreasing` on argument number i.
pub open spec fn recursion_from(
    params: Seq<(Seq<char>, Tm)>,
    body: Tm,
    rec: Seq<char>,
    ctx: TermDebugContext,
    defs: Seq<Definition>,
    st: Seq<(Seq<char>, Tm)>,
    n: nat,
    f: nat,
) -> Option<Fault>
    decreases f + 1, 0nat, params.len() - n,
{
    if n >= params.len() {
        Some(Fault::NonprimitiveRecursiveFunction(ctx))
    } else {
        let x = params[n as int].0;
        let ty = params[n as int].1;
        if ty.free_in(rec) {
            Some(Fault::NonprimitiveRecursiveFunction(ctx))
        } else {
            match typing(ty, defs, st, f) {
                Err(e) => Some(e),
                Ok(tt) => if is_var_named(tt, set_name()) && match_generic(ty) is Some && decreasing(
                    body,
                    n,
                    x,
                    rec,
                ) {
                    None
                } else {
                    recursion_from(params, body, rec, ctx, defs, st.push((x, ty)), n + 1, f)
                },
            }
        }
    }
}

/// The type of a fixed point 𝐘x:A.B.
pub open spec fn typing_fixed_point(
    t: Tm,
    defs: Seq<Definition>,
    st: Seq<(Seq<char>, Tm)>,
    f: nat,
) -> Result<Tm, Fault>
    decreases f + 1, 3nat, 0nat,
{
    match t {
        Tm::Bind(Binder::FixedPoint, b, ty, body, db) => match typing(*ty, defs, st, f) {
            Err(e) => Err(e),
            Ok(_) => {
                let name = binder_name(b, defs, st);
                let body2 = renamed_body(*body, b, name);
                let st2 = st.push((name, *ty));
                match typing(body2, defs, st2, f) {
                    Err(e) => Err(e),
                    Ok(inner) => if inner.free_in(name) {
                        Err(Fault::SelfReferencingRecursiveType(db))
                    } else {
                        let nb = hnf(body2, defs);
                        match nb {
                            Tm::Bind(Binder::Lambda, _, _, _, _) => match recursion_from(
                                lambda_spine(nb),
                                chain_body(nb, Binder::Lambda),
                                name,
                                db,
                                defs,
                                st2,
                                0,
                                f,
                            ) {
                                Some(e) => Err(e),
                                None => fixed_point_type(*ty, inner, body2, defs),
                            },
                            Tm::Bind(Binder::Forall, _, _, _, _) => match inductive_check(nb, name) {
                                Some(e) => Err(e),
                                None => fixed_point_type(*ty, inner, body2, defs),
                            },
                            _ => Err(Fault::MisshapenRecursiveDefinition(nb, nb.ctx(), db)),
                        }
                    },
                }
            },
        },
        _ => Err(Fault::InvalidInstance),
    }
}

/// The type of a fixed point 𝐘x:A.B whose body B has type `inner`: A, when
/// A and `inner` have the same full normal form; otherwise the stated and the
/// observed type do not match.
pub open spec fn fixed_point_type(ty: Tm, inner: Tm, body: Tm, defs: Seq<Definition>) -> Result<
    Tm,
    Fault,
> {
    let expected = full_normal_form(ty, defs);
    let observed = full_normal_form(inner, defs);
    if expected.erase() == observed.erase() {
        Ok(ty)
    } else {
        Err(Fault::NonmatchingDefinition(expected, observed, ty.ctx(), body.ctx()))
    }
}

/// The type of a constructor term ℺A.B.
pub open spec fn typing_constructor(
    t: Tm,
    defs: Seq<Definition>,
    st: Seq<(Seq<char>, Tm)>,
    f: nat,
) -> Result<Tm, Fault>
    decreases f + 1, 3nat, 0nat,
{
    match t {
        Tm::Cons(a, c, _) => match typing(*c, defs, st, f) {
            Err(e) => Err(e),
            Ok(vt) => match typing(*a, defs, st, f) {
                Err(e) => Err(e),
                Ok(_) => if full_normal_form(vt, defs).erase() == full_normal_form(
                    expanded(hnf(*a, defs), true),
                    defs,
                ).erase() {
                    Ok(*a)
                } else {
                    Err(Fault::InvalidInstance)
                },
            },
        },
        _ => Err(Fault::InvalidInstance),
    }
}

/// The type of an application A B: the type of A (normalized, unrolled once
/// when it is a fixed point) must be a product; see `typing_argument`.
pub open spec fn typing_application(
    t: Tm,
    defs: Seq<Definition>,
    st: Seq<(Seq<char>, Tm)>,
    f: nat,
) -> Result<Tm, Fault>
    decreases f + 1, 3nat, 0nat,
{
    match t {
        Tm::App(func, param, _) => match typing(*func, defs, st, f) {
            Err(e) => Err(e),
            Ok(_) => {
                let nf = hnf(*func, defs);
                match typing(nf, defs, st, f) {
                    Err(e) => Err(e),
                    Ok(oft) => match typing(oft, defs, st, f) {
                        Err(e) => Err(e),
                        Ok(_) => {
                            let ft = unrolled(hnf(oft, defs));
                            if ft matches Tm::Bind(Binder::Forall, _, _, _, _) {
                                typing_argument(t, nf, ft, defs, st, f)
                            } else {
                                Err(Fault::InvalidApplication(ft, func.ctx(), param.ctx()))
                            }
                        },
                    },
                }
            },
        },
        _ => Err(Fault::InvalidInstance),
    }
}

/// The head C of a normalized function `nf` = C D that is not itself an
/// application, with its type: the candidate of a match term C D B.
pub open spec fn match_candidate(
    nf: Tm,
    defs: Seq<Definition>,
    st: Seq<(Seq<char>, Tm)>,
    f: nat,
) -> Result<Option<(Tm, Tm)>, Fault>
    decreases f + 1, 1nat, 0nat,
{
    match nf {
        Tm::App(f2, _, _) => if *f2 is App {
            Ok(None)
        } else {
            match typing(*f2, defs, st, f) {
                Err(e) => Err(e),
                Ok(f2t) => Ok(Some((*f2, f2t))),
            }
        },
        _ => Ok(None),
    }
}

/// The type of an application A B once the type of A, normalized to `nf`,
/// is the product `ft` = ∀x:T.V: the type of B must be T (both fully
/// normalized) and the result is V[x:=B]; unless A is a match term C D on
/// an identifier C of an inductive type, whose type is `match_replaced`.
pub open spec fn typing_argument(
    t: Tm,
    nf: Tm,
    ft: Tm,
    defs: Seq<Definition>,
    st: Seq<(Seq<char>, Tm)>,
    f: nat,
) -> Result<Tm, Fault>
    decreases f + 1, 2nat, 0nat,
{
    match (t, ft) {
        (Tm::App(func, param, db), Tm::Bind(Binder::Forall, b, ty, body, _)) => match typing(
            *param,
            defs,
            st,
            f,
        ) {
            Err(e) => Err(e),
            Ok(pt0) => match typing(pt0, defs, st, f) {
                Err(e) => Err(e),
                Ok(_) => match typing(*ty, defs, st, f) {
                    Err(e) => Err(e),
                    Ok(_) => {
                        let pt = full_normal_form(pt0, defs);
                        let ept = full_normal_form(*ty, defs);
                        match match_candidate(nf, defs, st, f) {
                            Err(e) => Err(e),
                            Ok(cand) => {
                                let generic = match cand {
                                    Some((_, f2t)) => match_generic(f2t),
                                    None => None,
                                };
                                if pt.erase() != ept.erase() && generic is None {
                                    Err(Fault::NonmatchingArgument(ept, pt, func.ctx(), param.ctx()))
                                } else {
                                    match (cand, generic) {
                                        (Some((Tm::Var(s, _), f2t)), Some(g)) => Ok(
                                            match_replaced(ft, s, g, *param, f2t),
                                        ),
                                        _ => Ok(
                                            subst(
                                                body.with_ctx(
                                                    TermDebugContext::TypeOf(Box::new(db)),
                                                ),
                                                b,
                                                *param,
                                            ),
                                        ),
                                    }
                                }
                            },
                        }
                    },
                },
            },
        },
        _ => Err(Fault::InvalidInstance),
    }
}

} // verus!
