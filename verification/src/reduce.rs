//! One-step reductions (β, η, fixed point), α-conversion and β/η-normalization.
use vstd::prelude::*;
use crate::names::{decimal, suffixed, literal};
use crate::subst::{subst, lemma_subst_size};
use crate::term::{Binder, Term, TermDebugContext, Tm};

verus! {

/// The first β-reduction of a term, if any: the root when it is a redex
/// (λx:T.F) P, which becomes F[x:=P] with the application's debug context;
/// otherwise the first reduction found in the function then the argument of an
/// application, in the binding type then the body of a binder, and in the type
/// then the value of a constructor term.
pub open spec fn beta_step(t: Tm) -> Option<Tm>
    decreases t,
{
    match t {
        Tm::Var(_, _) => None,
        Tm::App(f, p, db) => match *f {
            Tm::Bind(Binder::Lambda, b, _, body, _) => Some(subst(*body, b, *p).with_ctx(db)),
            _ => match beta_step(*f) {
                Some(f2) => Some(Tm::App(Box::new(f2), p, db)),
                None => match beta_step(*p) {
                    Some(p2) => Some(Tm::App(f, Box::new(p2), db)),
                    None => None,
                },
            },
        },
        Tm::Bind(k, b, ty, body, db) => match beta_step(*ty) {
            Some(ty2) => Some(Tm::Bind(k, b, Box::new(ty2), body, db)),
            None => match beta_step(*body) {
                Some(body2) => Some(Tm::Bind(k, b, ty, Box::new(body2), db)),
                None => None,
            },
        },
        Tm::Cons(a, c, db) => match beta_step(*a) {
            Some(a2) => Some(Tm::Cons(Box::new(a2), c, db)),
            None => match beta_step(*c) {
                Some(c2) => Some(Tm::Cons(a, Box::new(c2), db)),
                None => None,
            },
        },
    }
}

/// The η-reduction at the root of a term, if it is a redex λx:T.F x
/// where `x` does not occur free in F: the result is F.
pub open spec fn eta_redex(t: Tm) -> Option<Tm> {
    match t {
        Tm::Bind(Binder::Lambda, b, _, body, _) => match *body {
            Tm::App(f, p, _) => match *p {
                Tm::Var(s, _) => if s == b && !f.free_in(s) {
                    Some(*f)
                } else {
                    None
                },
                _ => None,
            },
            _ => None,
        },
        _ => None,
    }
}

/// The first η-reduction of a term, if any: at the root, or else searched in
/// the same order as `beta_step`.
pub open spec fn eta_step(t: Tm) -> Option<Tm>
    decreases t,
{
    match eta_redex(t) {
        Some(r) => Some(r),
        None => match t {
            Tm::Var(_, _) => None,
            Tm::App(f, p, db) => match eta_step(*f) {
                Some(f2) => Some(Tm::App(Box::new(f2), p, db)),
                None => match eta_step(*p) {
                    Some(p2) => Some(Tm::App(f, Box::new(p2), db)),
                    None => None,
                },
            },
            Tm::Bind(k, b, ty, body, db) => match eta_step(*ty) {
                Some(ty2) => Some(Tm::Bind(k, b, Box::new(ty2), body, db)),
                None => match eta_step(*body) {
                    Some(body2) => Some(Tm::Bind(k, b, ty, Box::new(body2), db)),
                    None => None,
                },
            },
            Tm::Cons(a, c, db) => match eta_step(*a) {
                Some(a2) => Some(Tm::Cons(Box::new(a2), c, db)),
                None => match eta_step(*c) {
                    Some(c2) => Some(Tm::Cons(a, Box::new(c2), db)),
                    None => None,
                },
            },
        },
    }
}

/// Whether a term is a λ-abstraction.
pub open spec fn is_lambda(t: Tm) -> bool {
    match t {
        Tm::Bind(Binder::Lambda, _, _, _, _) => true,
        _ => false,
    }
}

/// The fixed point expansion at the root of a term, if it is 𝐘x:A.B and either
/// B is a λ-abstraction or `include_inductive` holds: the result is
/// (λx:A.B)(𝐘x:A.B), both new nodes carrying the fixed point's debug context.
pub open spec fn fixed_point_redex(t: Tm, include_inductive: bool) -> Option<Tm> {
    match t {
        Tm::Bind(Binder::FixedPoint, b, ty, body, db) => if is_lambda(*body) || include_inductive {
            Some(
                Tm::App(Box::new(Tm::Bind(Binder::Lambda, b, ty, body, db)), Box::new(t), db),
            )
        } else {
            None
        },
        _ => None,
    }
}

/// The first fixed point expansion of a term, if any: at the root, or else in
/// the function then the argument of an application, in the body then the
/// binding type of a binder, and in the value then the type of a constructor term.
pub open spec fn fixed_point_step(t: Tm, include_inductive: bool) -> Option<Tm>
    decreases t,
{
    match fixed_point_redex(t, include_inductive) {
        Some(r) => Some(r),
        None => match t {
            Tm::Var(_, _) => None,
            Tm::App(f, p, db) => match fixed_point_step(*f, include_inductive) {
                Some(f2) => Some(Tm::App(Box::new(f2), p, db)),
                None => match fixed_point_step(*p, include_inductive) {
                    Some(p2) => Some(Tm::App(f, Box::new(p2), db)),
                    None => None,
                },
            },
            Tm::Bind(k, b, ty, body, db) => match fixed_point_step(*body, include_inductive) {
                Some(body2) => Some(Tm::Bind(k, b, ty, Box::new(body2), db)),
                None => match fixed_point_step(*ty, include_inductive) {
                    Some(ty2) => Some(Tm::Bind(k, b, Box::new(ty2), body, db)),
                    None => None,
                },
            },
            Tm::Cons(a, c, db) => match fixed_point_step(*c, include_inductive) {
                Some(c2) => Some(Tm::Cons(a, Box::new(c2), db)),
                None => match fixed_point_step(*a, include_inductive) {
                    Some(a2) => Some(Tm::Cons(Box::new(a2), c, db)),
                    None => None,
                },
            },
        },
    }
}

/// The name given to a binder at nesting depth `n` by α-normalization: `#n`.
pub open spec fn canonical_name(n: u64) -> Seq<char> {
    seq!['#'] + decimal(n as nat)
}

/// α-normalization starting at depth `n`: every binder at nesting depth `d`
/// (counting from `n`) is renamed `#d` by substitution in its body; binding
/// types are at the depth of their binder. Below depth `u64::MAX` nothing
/// more is renamed.
pub open spec fn alpha_from(t: Tm, n: u64) -> Tm
    decreases t.size(),
{
    match t {
        Tm::Var(_, _) => t,
        Tm::App(f, p, db) => Tm::App(Box::new(alpha_from(*f, n)), Box::new(alpha_from(*p, n)), db),
        Tm::Bind(k, b, ty, body, db) => {
            let nb = canonical_name(n);
            let body2 = subst(*body, b, Tm::Var(nb, TermDebugContext::Ignore));
            if n == u64::MAX {
                Tm::Bind(k, nb, Box::new(alpha_from(*ty, n)), Box::new(body2), db)
            } else {
                proof {
                    lemma_subst_size(*body, b, Tm::Var(nb, TermDebugContext::Ignore));
                }
                Tm::Bind(
                    k,
                    nb,
                    Box::new(alpha_from(*ty, n)),
                    Box::new(alpha_from(body2, (n + 1) as u64)),
                    db,
                )
            }
        },
        Tm::Cons(a, c, db) => Tm::Cons(Box::new(alpha_from(*a, n)), Box::new(alpha_from(*c, n)), db),
    }
}

/// Whether a term has neither a β- nor an η-redex.
pub open spec fn is_beta_eta_normal(t: Tm) -> bool {
    beta_step(t) is None && eta_step(t) is None
}

/// At most `fuel` rounds of reduction, each performing the first β-reduction,
/// or if there is none the first η-reduction, stopping when there is neither.
pub open spec fn normalize_fuel(t: Tm, fuel: nat) -> Tm
    decreases fuel,
{
    if fuel == 0 {
        t
    } else {
        match beta_step(t) {
            Some(t2) => normalize_fuel(t2, (fuel - 1) as nat),
            None => match eta_step(t) {
                Some(t2) => normalize_fuel(t2, (fuel - 1) as nat),
                None => t,
            },
        }
    }
}

/// β/η-normalization, with a budget of `u64::MAX` rounds.
pub open spec fn normalize_spec(t: Tm) -> Tm {
    normalize_fuel(t, u64::MAX as nat)
}

/// The loop that alternates β/η-normalization with one fixed point expansion
/// (of a 𝐘 whose body is a λ), for at most `fuel` rounds, ending after the
/// normalization that leaves no such expansion.
pub open spec fn settle_fuel(t: Tm, fuel: nat) -> Tm
    decreases fuel,
{
    if fuel == 0 {
        t
    } else {
        let t1 = normalize_spec(t);
        match fixed_point_step(t1, false) {
            Some(t2) => settle_fuel(t2, (fuel - 1) as nat),
            None => t1,
        }
    }
}

/// The reduction that one round of normalization performs: the first
/// β-reduction, or if there is none the first η-reduction.
pub open spec fn reduction_step(t: Tm) -> Option<Tm> {
    match beta_step(t) {
        Some(t2) => Some(t2),
        None => eta_step(t),
    }
}

/// Whether the normalization loop started on `t` ends within `rounds` rounds:
/// after some normalization no fixed point expansion is left.
pub open spec fn settles_within(t: Tm, rounds: nat) -> bool
    decreases rounds,
{
    rounds > 0 && match fixed_point_step(normalize_spec(t), false) {
        Some(t2) => settles_within(t2, (rounds - 1) as nat),
        None => true,
    }
}

/// The normalization loop with a budget of `u64::MAX` rounds.
pub open spec fn settle(t: Tm) -> Tm {
    settle_fuel(t, u64::MAX as nat)
}

impl Term {
    /// The term after its first β-reduction, if it has one.
    fn beta_reduced(&self) -> (r: Option<Term>)
        ensures
            match beta_step(self@) {
                Some(t) => r is Some && r->0@ == t,
                None => r is None,
            },
        decreases self,
    {
        match self {
            Term::Identifier(_, _) => None,
            Term::Application { function_term, parameter_term, debug_context } => {
                if let Term::Lambda { binding_identifier, value_term, .. } = &**function_term {
                    let body = value_term.substituted(binding_identifier, parameter_term);
                    let r = body.with_new_debug_context(debug_context);
                    assert(function_term@ matches Tm::Bind(Binder::Lambda, _, _, _, _));
                    return Some(r);
                }
                match function_term.beta_reduced() {
                    Some(f2) => Some(
                        Term::Application {
                            function_term: Box::new(f2),
                            parameter_term: Box::new(parameter_term.duplicate()),
                            debug_context: debug_context.duplicate(),
                        },
                    ),
                    None => match parameter_term.beta_reduced() {
                        Some(p2) => Some(
                            Term::Application {
                                function_term: Box::new(function_term.duplicate()),
                                parameter_term: Box::new(p2),
                                debug_context: debug_context.duplicate(),
                            },
                        ),
                        None => None,
                    },
                }
            },
            Term::Lambda { binding_identifier, binding_type, value_term, debug_context } => {
                match binding_type.beta_reduced() {
                    Some(t2) => Some(
                        Term::Lambda {
                            binding_identifier: binding_identifier.clone(),
                            binding_type: Box::new(t2),
                            value_term: Box::new(value_term.duplicate()),
                            debug_context: debug_context.duplicate(),
                        },
                    ),
                    None => match value_term.beta_reduced() {
                        Some(v2) => Some(
                            Term::Lambda {
                                binding_identifier: binding_identifier.clone(),
                                binding_type: Box::new(binding_type.duplicate()),
                                value_term: Box::new(v2),
                                debug_context: debug_context.duplicate(),
                            },
                        ),
                        None => None,
                    },
                }
            },
            Term::Forall { binding_identifier, binding_type, value_term, debug_context } => {
                match binding_type.beta_reduced() {
                    Some(t2) => Some(
                        Term::Forall {
                            binding_identifier: binding_identifier.clone(),
                            binding_type: Box::new(t2),
                            value_term: Box::new(value_term.duplicate()),
                            debug_context: debug_context.duplicate(),
                        },
                    ),
                    None => match value_term.beta_reduced() {
                        Some(v2) => Some(
                            Term::Forall {
                                binding_identifier: binding_identifier.clone(),
                                binding_type: Box::new(binding_type.duplicate()),
                                value_term: Box::new(v2),
                                debug_context: debug_context.duplicate(),
                            },
                        ),
                        None => None,
                    },
                }
            },
            Term::FixedPoint { binding_identifier, binding_type, value_term, debug_context } => {
                match binding_type.beta_reduced() {
                    Some(t2) => Some(
                        Term::FixedPoint {
                            binding_identifier: binding_identifier.clone(),
                            binding_type: Box::new(t2),
                            value_term: Box::new(value_term.duplicate()),
                            debug_context: debug_context.duplicate(),
                        },
                    ),
                    None => match value_term.beta_reduced() {
                        Some(v2) => Some(
                            Term::FixedPoint {
                                binding_identifier: binding_identifier.clone(),
                                binding_type: Box::new(binding_type.duplicate()),
                                value_term: Box::new(v2),
                                debug_context: debug_context.duplicate(),
                            },
                        ),
                        None => None,
                    },
                }
            },
            Term::Constructor { type_term, value_term, debug_context } => {
                match type_term.beta_reduced() {
                    Some(t2) => Some(
                        Term::Constructor {
                            type_term: Box::new(t2),
                            value_term: Box::new(value_term.duplicate()),
                            debug_context: debug_context.duplicate(),
                        },
                    ),
                    None => match value_term.beta_reduced() {
                        Some(v2) => Some(
                            Term::Constructor {
                                type_term: Box::new(type_term.duplicate()),
                                value_term: Box::new(v2),
                                debug_context: debug_context.duplicate(),
                            },
                        ),
                        None => None,
                    },
                }
            },
        }
    }

    /// Applies the β-reduction rule of lambda calculus.
    /// If the term can be β-reduced, one such reduction is performed
    /// and this method returns true. Otherwise, it returns false
    /// and no change is performed.
    ///
    /// (λx:T.F) P = F[x:=P]
    ///
    /// Please note that no type checking is performed.
    pub fn beta_reduce(&mut self) -> (reduced: bool)
        ensures
            reduced == beta_step(old(self)@) is Some,
            reduced ==> final(self)@ == beta_step(old(self)@)->0,
            !reduced ==> final(self)@ == old(self)@,
    {
        match self.beta_reduced() {
            Some(t) => {
                *self = t;
                true
            },
            None => false,
        }
    }
}


impl Term {
    /// The result of η-reducing the root, if it is a redex.
    fn eta_root(&self) -> (r: Option<Term>)
        ensures
            match eta_redex(self@) {
                Some(t) => r is Some && r->0@ == t,
                None => r is None,
            },
    {
        match self {
            Term::Lambda { binding_identifier, value_term, .. } => match &**value_term {
                Term::Application { function_term, parameter_term, .. } => match &**parameter_term {
                    Term::Identifier(s, _) => {
                        assert(value_term@ == Tm::App(
                            Box::new(function_term@),
                            Box::new(parameter_term@),
                            value_term@.ctx(),
                        ));
                        if *s == *binding_identifier && !function_term.contains(s) {
                            Some(function_term.duplicate())
                        } else {
                            None
                        }
                    },
                    _ => None,
                },
                _ => None,
            },
            _ => None,
        }
    }

    /// The term after its first η-reduction, if it has one.
    fn eta_reduced(&self) -> (r: Option<Term>)
        ensures
            match eta_step(self@) {
                Some(t) => r is Some && r->0@ == t,
                None => r is None,
            },
        decreases self,
    {
        match self.eta_root() {
            Some(r) => {
                return Some(r);
            },
            None => {},
        }
        match self {
            Term::Identifier(_, _) => None,
            Term::Application { function_term, parameter_term, debug_context } => {
                match function_term.eta_reduced() {
                    Some(f2) => Some(
                        Term::Application {
                            function_term: Box::new(f2),
                            parameter_term: Box::new(parameter_term.duplicate()),
                            debug_context: debug_context.duplicate(),
                        },
                    ),
                    None => match parameter_term.eta_reduced() {
                        Some(p2) => Some(
                            Term::Application {
                                function_term: Box::new(function_term.duplicate()),
                                parameter_term: Box::new(p2),
                                debug_context: debug_context.duplicate(),
                            },
                        ),
                        None => None,
                    },
                }
            },
            Term::Lambda { binding_identifier, binding_type, value_term, debug_context }
            | Term::Forall { binding_identifier, binding_type, value_term, debug_context }
            | Term::FixedPoint { binding_identifier, binding_type, value_term, debug_context } => {
                match binding_type.eta_reduced() {
                    Some(t2) => Some(
                        self.rebuild_binder(
                            binding_identifier.clone(),
                            t2,
                            value_term.duplicate(),
                            debug_context.duplicate(),
                        ),
                    ),
                    None => match value_term.eta_reduced() {
                        Some(v2) => Some(
                            self.rebuild_binder(
                                binding_identifier.clone(),
                                binding_type.duplicate(),
                                v2,
                                debug_context.duplicate(),
                            ),
                        ),
                        None => None,
                    },
                }
            },
            Term::Constructor { type_term, value_term, debug_context } => {
                match type_term.eta_reduced() {
                    Some(t2) => Some(
                        Term::Constructor {
                            type_term: Box::new(t2),
                            value_term: Box::new(value_term.duplicate()),
                            debug_context: debug_context.duplicate(),
                        },
                    ),
                    None => match value_term.eta_reduced() {
                        Some(v2) => Some(
                            Term::Constructor {
                                type_term: Box::new(type_term.duplicate()),
                                value_term: Box::new(v2),
                                debug_context: debug_context.duplicate(),
                            },
                        ),
                        None => None,
                    },
                }
            },
        }
    }

    /// Applies the η-reduction rule of lambda calculus.
    /// If the term can be η-reduced, one such reduction is performed
    /// and this method returns true. Otherwise, it returns false
    /// and no change is performed.
    ///
    /// λx:T.F x = F only if F[x:=M] = F for all M
    ///
    /// Please note that no type checking is performed.
    pub fn eta_reduce(&mut self) -> (reduced: bool)
        ensures
            reduced == eta_step(old(self)@) is Some,
            reduced ==> final(self)@ == eta_step(old(self)@)->0,
            !reduced ==> final(self)@ == old(self)@,
    {
        match self.eta_reduced() {
            Some(t) => {
                *self = t;
                true
            },
            None => false,
        }
    }

    /// The term after its first fixed point expansion, if it has one.
    fn fixed_point_reduced(&self, include_inductive: bool) -> (r: Option<Term>)
        ensures
            match fixed_point_step(self@, include_inductive) {
                Some(t) => r is Some && r->0@ == t,
                None => r is None,
            },
        decreases self,
    {
        if let Term::FixedPoint { binding_identifier, binding_type, value_term, debug_context } =
            self {
            let perform = if let Term::Lambda { .. } = &**value_term {
                true
            } else {
                false
            };
            if perform || include_inductive {
                let lam = Term::Lambda {
                    binding_identifier: binding_identifier.clone(),
                    binding_type: Box::new(binding_type.duplicate()),
                    value_term: Box::new(value_term.duplicate()),
                    debug_context: debug_context.duplicate(),
                };
                let whole = self.duplicate();
                assert(lam@ == Tm::Bind(
                    Binder::Lambda,
                    binding_identifier@,
                    Box::new(binding_type@),
                    Box::new(value_term@),
                    *debug_context,
                ));
                let r = Term::Application {
                    function_term: Box::new(lam),
                    parameter_term: Box::new(whole),
                    debug_context: debug_context.duplicate(),
                };
                return Some(r);
            }
        }
        match self {
            Term::Identifier(_, _) => None,
            Term::Application { function_term, parameter_term, debug_context } => {
                match function_term.fixed_point_reduced(include_inductive) {
                    Some(f2) => Some(
                        Term::Application {
                            function_term: Box::new(f2),
                            parameter_term: Box::new(parameter_term.duplicate()),
                            debug_context: debug_context.duplicate(),
                        },
                    ),
                    None => match parameter_term.fixed_point_reduced(include_inductive) {
                        Some(p2) => Some(
                            Term::Application {
                                function_term: Box::new(function_term.duplicate()),
                                parameter_term: Box::new(p2),
                                debug_context: debug_context.duplicate(),
                            },
                        ),
                        None => None,
                    },
                }
            },
            Term::Lambda { binding_identifier, binding_type, value_term, debug_context }
            | Term::Forall { binding_identifier, binding_type, value_term, debug_context }
            | Term::FixedPoint { binding_identifier, binding_type, value_term, debug_context } => {
                match value_term.fixed_point_reduced(include_inductive) {
                    Some(v2) => Some(
                        self.rebuild_binder(
                            binding_identifier.clone(),
                            binding_type.duplicate(),
                            v2,
                            debug_context.duplicate(),
                        ),
                    ),
                    None => match binding_type.fixed_point_reduced(include_inductive) {
                        Some(t2) => Some(
                            self.rebuild_binder(
                                binding_identifier.clone(),
                                t2,
                                value_term.duplicate(),
                                debug_context.duplicate(),
                            ),
                        ),
                        None => None,
                    },
                }
            },
            Term::Constructor { type_term, value_term, debug_context } => {
                match value_term.fixed_point_reduced(include_inductive) {
                    Some(v2) => Some(
                        Term::Constructor {
                            type_term: Box::new(type_term.duplicate()),
                            value_term: Box::new(v2),
                            debug_context: debug_context.duplicate(),
                        },
                    ),
                    None => match type_term.fixed_point_reduced(include_inductive) {
                        Some(t2) => Some(
                            Term::Constructor {
                                type_term: Box::new(t2),
                                value_term: Box::new(value_term.duplicate()),
                                debug_context: debug_context.duplicate(),
                            },
                        ),
                        None => None,
                    },
                }
            },
        }
    }

    /// Applies fixed point reduction, which transforms an expression
    /// of the form 𝐘x:A.B into (λx:A.B)(𝐘x:A.B).
    ///
    /// If such a reduction is possible, this method will succeed
    /// as many times as it is called. To prevent such behavior,
    /// `.normalize()` should be called before each reduction.
    ///
    /// It can optionally require that B is a lambda expression, to
    /// avoid expanding recursively defined inductive types.
    pub fn fixed_point_reduce(&mut self, include_inductive: bool) -> (reduced: bool)
        ensures
            reduced == fixed_point_step(old(self)@, include_inductive) is Some,
            reduced ==> final(self)@ == fixed_point_step(old(self)@, include_inductive)->0,
            !reduced ==> final(self)@ == old(self)@,
    {
        match self.fixed_point_reduced(include_inductive) {
            Some(t) => {
                *self = t;
                true
            },
            None => false,
        }
    }

    /// Applies both β- and η-reduction until fully normalized, preferring
    /// β-reduction, for at most `u64::MAX` rounds.
    /// Preserves variable names.
    ///
    /// Please note that no type checking is performed.
    pub fn normalize(&mut self)
        ensures
            final(self)@ == normalize_spec(old(self)@),
    {
        let ghost start = self@;
        let mut budget: u64 = u64::MAX;
        loop
            invariant
                normalize_fuel(self@, budget as nat) == normalize_spec(start),
            ensures
                self@ == normalize_spec(start),
            decreases budget,
        {
            if budget == 0 {
                break;
            }
            budget = budget - 1;
            if !(self.beta_reduce() || self.eta_reduce()) {
                break;
            }
        }
    }

    /// α-normalization of the term, numbering binders from depth `next_suffix`.
    fn alpha_normalized(&self, next_suffix: u64) -> (r: Term)
        ensures
            r@ == alpha_from(self@, next_suffix),
        decreases self@.size(),
    {
        match self {
            Term::Identifier(_, _) => self.duplicate(),
            Term::Application { function_term, parameter_term, debug_context } => {
                Term::Application {
                    function_term: Box::new(function_term.alpha_normalized(next_suffix)),
                    parameter_term: Box::new(parameter_term.alpha_normalized(next_suffix)),
                    debug_context: debug_context.duplicate(),
                }
            },
            Term::Lambda { binding_identifier, binding_type, value_term, debug_context }
            | Term::Forall { binding_identifier, binding_type, value_term, debug_context }
            | Term::FixedPoint { binding_identifier, binding_type, value_term, debug_context } => {
                let ty = binding_type.alpha_normalized(next_suffix);
                let hash = literal("#");
                let nb = suffixed(&hash, next_suffix);
                proof {
                    reveal_strlit("#");
                }
                assert(nb@ == canonical_name(next_suffix));
                let w = Term::Identifier(nb.clone(), TermDebugContext::Ignore);
                let body2 = value_term.substituted(binding_identifier, &w);
                if next_suffix == u64::MAX {
                    self.rebuild_binder(nb, ty, body2, debug_context.duplicate())
                } else {
                    proof {
                        lemma_subst_size(value_term@, binding_identifier@, w@);
                    }
                    let body3 = body2.alpha_normalized(next_suffix + 1);
                    self.rebuild_binder(nb, ty, body3, debug_context.duplicate())
                }
            },
            Term::Constructor { type_term, value_term, debug_context } => {
                Term::Constructor {
                    type_term: Box::new(type_term.alpha_normalized(next_suffix)),
                    value_term: Box::new(value_term.alpha_normalized(next_suffix)),
                    debug_context: debug_context.duplicate(),
                }
            },
        }
    }

    /// Applies α-conversion, reassigning variable names systematically:
    /// every binder at nesting depth n is renamed `#n`.
    pub fn alpha_normalize(&mut self)
        ensures
            final(self)@ == alpha_from(old(self)@, 0),
    {
        *self = self.alpha_normalized(0);
    }
}

impl Term {
    /// Alternates `.normalize()` and `.fixed_point_reduce(false)` until no
    /// fixed point expansion remains, for at most `u64::MAX` rounds.
    pub fn settle(&mut self)
        ensures
            final(self)@ == settle(old(self)@),
    {
        let ghost start = self@;
        let mut budget: u64 = u64::MAX;
        loop
            invariant_except_break
                settle_fuel(self@, budget as nat) == settle(start),
            ensures
                self@ == settle(start),
            decreases budget,
        {
            if budget == 0 {
                break;
            }
            budget = budget - 1;
            self.normalize();
            if !self.fixed_point_reduce(false) {
                break;
            }
        }
    }
}

} // verus!
