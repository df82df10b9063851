//! Shapes of terms used by the rules for inductive types and recursive
//! functions: application spines, chains of binders, strict positivity.
use vstd::prelude::*;
use crate::error::KernelError;
use crate::term::{Binder, Term, TermDebugContext, Tm};

verus! {

/// Whether a term is the identifier `x`.
pub open spec fn is_var_named(t: Tm, x: Seq<char>) -> bool {
    match t {
        Tm::Var(s, _) => s == x,
        _ => false,
    }
}

/// The head A of an application A B C D ...
pub open spec fn app_head(t: Tm) -> Tm
    decreases t,
{
    match t {
        Tm::App(f, _, _) => app_head(*f),
        _ => t,
    }
}

/// The arguments [B, C, D, ...] of an application A B C D ...
pub open spec fn app_args(t: Tm) -> Seq<Tm>
    decreases t,
{
    match t {
        Tm::App(f, p, _) => app_args(*f).push(*p),
        _ => seq![],
    }
}

/// The innermost body Z of a chain of binders of form `k`, such as λx:A.λy:B. ... Z.
pub open spec fn chain_body(t: Tm, k: Binder) -> Tm
    decreases t,
{
    match t {
        Tm::Bind(k2, _, _, body, _) => if k2 == k {
            chain_body(*body, k)
        } else {
            t
        },
        _ => t,
    }
}

/// The bound names and types of a chain of binders of form `k`, innermost first:
/// for λx:A.λy:B.λz:C.Z this is [(z, C), (y, B), (x, A)].
pub open spec fn chain_params(t: Tm, k: Binder) -> Seq<(Seq<char>, Tm)>
    decreases t,
{
    match t {
        Tm::Bind(k2, b, ty, body, _) => if k2 == k {
            chain_params(*body, k).push((b, *ty))
        } else {
            seq![]
        },
        _ => seq![],
    }
}

/// The application A B C D ... built from a head and its arguments, every new
/// node with debug context `Ignore`.
pub open spec fn applied(head: Tm, args: Seq<Tm>) -> Tm
    decreases args.len(),
{
    if args.len() == 0 {
        head
    } else {
        Tm::App(
            Box::new(applied(head, args.drop_last())),
            Box::new(args.last()),
            TermDebugContext::Ignore,
        )
    }
}

/// The abstraction λx:A.λy:B. ... Z built from a body and its parameters given
/// innermost first, every new node with debug context `Ignore`.
pub open spec fn abstracted(body: Tm, params: Seq<(Seq<char>, Tm)>) -> Tm
    decreases params.len(),
{
    if params.len() == 0 {
        body
    } else {
        Tm::Bind(
            Binder::Lambda,
            params.last().0,
            Box::new(params.last().1),
            Box::new(abstracted(body, params.drop_last())),
            TermDebugContext::Ignore,
        )
    }
}

/// Whether the end Z of a chain is fine for strict positivity of `x`:
/// either exactly `x` or free of it.
pub open spec fn positive_end(z: Tm, x: Seq<char>) -> bool {
    is_var_named(z, x) || !z.free_in(x)
}

/// The first parameter type, from position `i` on, in which `x` occurs free.
pub open spec fn first_occurrence(ps: Seq<(Seq<char>, Tm)>, x: Seq<char>, i: nat) -> Option<Tm>
    decreases ps.len() - i,
{
    if i >= ps.len() {
        None
    } else if ps[i as int].1.free_in(x) {
        Some(ps[i as int].1)
    } else {
        first_occurrence(ps, x, i + 1)
    }
}

/// The first violation of strict positivity among the parameters of a ∀-chain,
/// from position `i` on: a parameter whose own ∀-chain ends in a term that is
/// not fine (`false`, with that end), or whose own parameters mention `x`
/// (`true`, with the first such parameter type).
pub open spec fn parameter_violation(ps: Seq<(Seq<char>, Tm)>, x: Seq<char>, i: nat) -> Option<
    (bool, Tm),
>
    decreases ps.len() - i,
{
    if i >= ps.len() {
        None
    } else {
        let p = ps[i as int].1;
        let end = chain_body(p, Binder::Forall);
        if !positive_end(end, x) {
            Some((false, end))
        } else {
            match first_occurrence(chain_params(p, Binder::Forall), x, 0) {
                Some(n) => Some((true, n)),
                None => parameter_violation(ps, x, i + 1),
            }
        }
    }
}

/// The first violation of strict positivity of `x` in ∀x1:A1. ... Z: the end Z
/// itself, or else the first violation among A1, A2, ... taken innermost first.
pub open spec fn positivity_violation(t: Tm, x: Seq<char>) -> Option<(bool, Tm)> {
    let end = chain_body(t, Binder::Forall);
    if !positive_end(end, x) {
        Some((false, end))
    } else {
        parameter_violation(chain_params(t, Binder::Forall), x, 0)
    }
}

/// Whether `r` reports the violation `v` found in `t` as `check_strict_positivity` does.
pub open spec fn reports_violation(r: Result<(), KernelError>, v: Option<(bool, Tm)>, t: Tm) -> bool {
    match v {
        None => r is Ok,
        Some((true, sub)) => match r {
            Err(
                KernelError::NegativeInductiveDefinition {
                    negative_subterm,
                    subterm_context,
                    full_term_context,
                },
            ) => negative_subterm@ == sub && subterm_context == sub.ctx() && full_term_context
                == t.ctx(),
            _ => false,
        },
        Some((false, sub)) => match r {
            Err(
                KernelError::MisshapenInductiveDefinition {
                    unexpected_subterm,
                    subterm_context,
                    full_term_context,
                },
            ) => unexpected_subterm@ == sub && subterm_context == sub.ctx() && full_term_context
                == t.ctx(),
            _ => false,
        },
    }
}

/// Whether a term is one of the identifiers in `allowed`.
pub open spec fn is_allowed(t: Tm, allowed: Seq<Seq<char>>) -> bool {
    exists|k: int| 0 <= k < allowed.len() && is_var_named(t, #[trigger] allowed[k])
}

/// The first position of `b` in `s`, from position `i` on.
pub open spec fn first_position(s: Seq<Seq<char>>, b: Seq<char>, i: nat) -> Option<nat>
    decreases s.len() - i,
{
    if i >= s.len() {
        None
    } else if s[i as int] == b {
        Some(i)
    } else {
        first_position(s, b, i + 1)
    }
}

/// The names bound by a chain of λ-abstractions, innermost first.
pub open spec fn lambda_names(t: Tm) -> Seq<Seq<char>> {
    chain_params(t, Binder::Lambda).map_values(|q: (Seq<char>, Tm)| q.0)
}

/// Whether the body of a recursive function (bound to `rec`, recursing on its
/// argument number `index`, which is named `parameter`) only recurses on
/// arguments strictly smaller than `parameter`. A recursive call may only
/// occur inside a match on `parameter`, i.e. inside an argument
/// λy1:B1. ... E of an application `parameter P1 P2 ...`, and there the
/// argument number `index` of the call must be one of y1, y2, ... (see
/// `guarded`); every argument of the match is checked. A binder that rebinds
/// `parameter` ends the match requirement (the name is then empty); one that
/// rebinds `rec` hides it.
pub open spec fn decreasing(t: Tm, index: nat, parameter: Seq<char>, rec: Seq<char>) -> bool
    decreases t, 3nat,
{
    match t {
        Tm::Var(s, _) => s != rec,
        Tm::App(_, _, _) => decreasing_head(t, index, parameter, rec) && if is_var_named(
            app_head(t),
            parameter,
        ) {
            decreasing_arms(t, index, parameter, rec)
        } else {
            decreasing_args(t, index, parameter, rec)
        },
        Tm::Bind(_, b, ty, body, _) => decreasing(*ty, index, parameter, rec) && if b
            == parameter {
            decreasing(*body, index, Seq::empty(), rec)
        } else if b == rec {
            true
        } else {
            decreasing(*body, index, parameter, rec)
        },
        Tm::Cons(a, c, _) => decreasing(*a, index, parameter, rec) && decreasing(
            *c,
            index,
            parameter,
            rec,
        ),
    }
}

/// `decreasing` of the head of an application.
pub open spec fn decreasing_head(t: Tm, index: nat, parameter: Seq<char>, rec: Seq<char>) -> bool
    decreases t, 0nat,
{
    match t {
        Tm::App(f, _, _) => match *f {
            Tm::App(_, _, _) => decreasing_head(*f, index, parameter, rec),
            _ => decreasing(*f, index, parameter, rec),
        },
        _ => true,
    }
}

/// `decreasing` of every argument of an application.
pub open spec fn decreasing_args(t: Tm, index: nat, parameter: Seq<char>, rec: Seq<char>) -> bool
    decreases t, 0nat,
{
    match t {
        Tm::App(f, p, _) => decreasing(*p, index, parameter, rec) && match *f {
            Tm::App(_, _, _) => decreasing_args(*f, index, parameter, rec),
            _ => true,
        },
        _ => true,
    }
}

/// `decreasing` of every argument of a match `parameter P1 P2 ...`: each
/// argument is a match arm (see `match_argument`).
pub open spec fn decreasing_arms(t: Tm, index: nat, parameter: Seq<char>, rec: Seq<char>) -> bool
    decreases t, 0nat,
{
    match t {
        Tm::App(f, p, _) => match_argument(*p, index, parameter, rec) && match *f {
            Tm::App(_, _, _) => decreasing_arms(*f, index, parameter, rec),
            _ => true,
        },
        _ => true,
    }
}

/// Whether an argument of a match on `parameter` is fine: a λ-abstraction is
/// an arm (see `decreasing_arm`), any other term must be `decreasing`.
pub open spec fn match_argument(u: Tm, index: nat, parameter: Seq<char>, rec: Seq<char>) -> bool
    decreases u, 5nat,
{
    if u matches Tm::Bind(Binder::Lambda, _, _, _, _) {
        decreasing_arm(u, lambda_names(u), index, parameter, rec)
    } else {
        decreasing(u, index, parameter, rec)
    }
}

/// Whether a match arm λy1:B1.λy2:B2. ... E is fine: every Bi is `decreasing` and
/// E is `guarded` with the names y1, y2, ... allowed.
pub open spec fn decreasing_arm(
    u: Tm,
    allowed: Seq<Seq<char>>,
    index: nat,
    parameter: Seq<char>,
    rec: Seq<char>,
) -> bool
    decreases u, 4nat,
{
    match u {
        Tm::Bind(Binder::Lambda, _, ty, body, _) => decreasing(*ty, index, parameter, rec)
            && decreasing_arm(*body, allowed, index, parameter, rec),
        _ => guarded(u, index, parameter, allowed, rec),
    }
}

/// Whether every recursive call `rec Q1 Q2 ...` in `t` has as argument number
/// `index` one of the `allowed` names, a binder of one of them removing it
/// from the list, and the other rules being those of `decreasing`.
pub open spec fn guarded(
    t: Tm,
    index: nat,
    parameter: Seq<char>,
    allowed: Seq<Seq<char>>,
    rec: Seq<char>,
) -> bool
    decreases t, 3nat,
{
    match t {
        Tm::Var(s, _) => s != rec,
        Tm::App(_, _, _) => if is_var_named(app_head(t), rec) {
            index < app_args(t).len() && is_allowed(app_args(t)[index as int], allowed)
        } else {
            guarded_args(t, index, parameter, allowed, rec) && guarded_head(
                t,
                index,
                parameter,
                allowed,
                rec,
            )
        },
        Tm::Bind(_, b, ty, body, _) => guarded(*ty, index, parameter, allowed, rec) && if b
            == parameter {
            decreasing(*body, index, Seq::empty(), rec)
        } else if b == rec {
            true
        } else {
            match first_position(allowed, b, 0) {
                Some(n) => guarded(*body, index, Seq::empty(), allowed.remove(n as int), rec),
                None => guarded(*body, index, Seq::empty(), allowed, rec),
            }
        },
        Tm::Cons(a, c, _) => guarded(*a, index, parameter, allowed, rec) && guarded(
            *c,
            index,
            Seq::empty(),
            allowed,
            rec,
        ),
    }
}

/// `guarded` of the head of an application.
pub open spec fn guarded_head(
    t: Tm,
    index: nat,
    parameter: Seq<char>,
    allowed: Seq<Seq<char>>,
    rec: Seq<char>,
) -> bool
    decreases t, 0nat,
{
    match t {
        Tm::App(f, _, _) => match *f {
            Tm::App(_, _, _) => guarded_head(*f, index, parameter, allowed, rec),
            _ => guarded(*f, index, parameter, allowed, rec),
        },
        _ => true,
    }
}

/// `guarded` of every argument of an application.
pub open spec fn guarded_args(
    t: Tm,
    index: nat,
    parameter: Seq<char>,
    allowed: Seq<Seq<char>>,
    rec: Seq<char>,
) -> bool
    decreases t, 0nat,
{
    match t {
        Tm::App(f, p, _) => guarded(*p, index, parameter, allowed, rec) && match *f {
            Tm::App(_, _, _) => guarded_args(*f, index, parameter, allowed, rec),
            _ => true,
        },
        _ => true,
    }
}

impl Term {
    /// Whether this term is the identifier `x`.
    pub fn is_identifier(&self, x: &String) -> (b: bool)
        ensures
            b == is_var_named(self@, x@),
    {
        match self {
            Term::Identifier(s, _) => *s == *x,
            _ => false,
        }
    }

    /// The debug context at the root of this term.
    pub fn get_debug_context(&self) -> (db: &TermDebugContext)
        ensures
            *db == self@.ctx(),
    {
        self.debug_context()
    }

    /// Collect an expression of the form A B C D ...
    /// into (A, [B, C, D, ...]).
    pub fn collect_application(&self) -> (r: (&Term, Vec<&Term>))
        ensures
            r.0@ == app_head(self@),
            r.1@.len() == app_args(self@).len(),
            forall|i: int| 0 <= i < r.1@.len() ==> (#[trigger] r.1@[i])@ == app_args(self@)[i],
        decreases self,
    {
        match self {
            Term::Application { function_term, parameter_term, .. } => {
                let mut remaining = function_term.collect_application();
                let p: &Term = parameter_term;
                remaining.1.push(p);
                remaining
            },
            _ => (self, Vec::new()),
        }
    }

    /// Collect an expression of the form λx:A.λy:B.λz:C. ... Z
    /// into (Z, [(z, C), (y, B), (x, A)]).
    pub fn collect_lambda(&self) -> (r: (&Term, Vec<(&String, &Term)>))
        ensures
            r.0@ == chain_body(self@, Binder::Lambda),
            r.1@.len() == chain_params(self@, Binder::Lambda).len(),
            forall|i: int|
                0 <= i < r.1@.len() ==> (#[trigger] r.1@[i]).0@ == chain_params(
                    self@,
                    Binder::Lambda,
                )[i].0 && r.1@[i].1@ == chain_params(self@, Binder::Lambda)[i].1,
        decreases self,
    {
        match self {
            Term::Lambda { binding_identifier, binding_type, value_term, .. } => {
                let mut remaining = value_term.collect_lambda();
                let ty: &Term = binding_type;
                remaining.1.push((binding_identifier, ty));
                remaining
            },
            _ => (self, Vec::new()),
        }
    }

    /// Collect an expression of the form ∀x:A.∀y:B.∀z:C. ... Z
    /// into (Z, [(z, C), (y, B), (x, A)]).
    pub fn collect_forall(&self) -> (r: (&Term, Vec<(&String, &Term)>))
        ensures
            r.0@ == chain_body(self@, Binder::Forall),
            r.1@.len() == chain_params(self@, Binder::Forall).len(),
            forall|i: int|
                0 <= i < r.1@.len() ==> (#[trigger] r.1@[i]).0@ == chain_params(
                    self@,
                    Binder::Forall,
                )[i].0 && r.1@[i].1@ == chain_params(self@, Binder::Forall)[i].1,
        decreases self,
    {
        match self {
            Term::Forall { binding_identifier, binding_type, value_term, .. } => {
                let mut remaining = value_term.collect_forall();
                let ty: &Term = binding_type;
                remaining.1.push((binding_identifier, ty));
                remaining
            },
            _ => (self, Vec::new()),
        }
    }

    /// Build an expression of the form A B C D ...
    /// from A and [B, C, D, ...].
    pub fn build_application(head: &Term, args: &[Term]) -> (r: Term)
        ensures
            r@ == applied(head@, args@.map_values(|a: Term| a@)),
        decreases args@.len(),
    {
        let n = args.len();
        if n >= 1 {
            let rest = slice_prefix(args, n - 1);
            let inner = Self::build_application(head, rest);
            proof {
                assert(args@.map_values(|a: Term| a@).drop_last() =~= rest@.map_values(
                    |a: Term| a@,
                ));
            }
            Term::Application {
                function_term: Box::new(inner),
                parameter_term: Box::new(args[n - 1].duplicate()),
                debug_context: TermDebugContext::Ignore,
            }
        } else {
            head.duplicate()
        }
    }

    /// Build an expression of the form λx:A.λy:B.λz:C. ... Z
    /// from Z and [..., (z, C), (y, B), (x, A)].
    pub fn build_lambda(body: &Term, params: &[(String, Term)]) -> (r: Term)
        ensures
            r@ == abstracted(body@, params@.map_values(|p: (String, Term)| (p.0@, p.1@))),
        decreases params@.len(),
    {
        let n = params.len();
        if n >= 1 {
            let rest = slice_prefix(params, n - 1);
            let inner = Self::build_lambda(body, rest);
            proof {
                assert(params@.map_values(|p: (String, Term)| (p.0@, p.1@)).drop_last()
                    =~= rest@.map_values(|p: (String, Term)| (p.0@, p.1@)));
            }
            Term::Lambda {
                binding_identifier: params[n - 1].0.clone(),
                binding_type: Box::new(params[n - 1].1.duplicate()),
                value_term: Box::new(inner),
                debug_context: TermDebugContext::Ignore,
            }
        } else {
            body.duplicate()
        }
    }

    /// Checks that `identifier` only occurs strictly positively in a ∀-chain
    /// ∀x:A.∀y:B. ... Z: Z is `identifier` or free of it, and every parameter
    /// type is itself a ∀-chain that ends in `identifier` or a term free of
    /// it, and whose own parameter types are free of it.
    pub fn check_strict_positivity(&self, identifier: &String) -> (r: Result<(), KernelError>)
        ensures
            reports_violation(r, positivity_violation(self@, identifier@), self@),
    {
        let (forall_result, forall_params) = self.collect_forall();
        if !forall_result.is_identifier(identifier) && forall_result.contains(identifier) {
            return Err(
                KernelError::MisshapenInductiveDefinition {
                    unexpected_subterm: forall_result.duplicate(),
                    subterm_context: forall_result.get_debug_context().duplicate(),
                    full_term_context: self.get_debug_context().duplicate(),
                },
            );
        }
        let ghost ps = chain_params(self@, Binder::Forall);
        let n = forall_params.len();
        let mut i: usize = 0;
        while i < n
            invariant
                n == forall_params@.len(),
                n == ps.len(),
                i <= n,
                forall|j: int|
                    0 <= j < n ==> (#[trigger] forall_params@[j]).1@ == ps[j].1,
                parameter_violation(ps, identifier@, i as nat) == parameter_violation(
                    ps,
                    identifier@,
                    0,
                ),
                positivity_violation(self@, identifier@) == parameter_violation(
                    ps,
                    identifier@,
                    0,
                ),
            decreases n - i,
        {
            let param = forall_params[i].1;
            let (param_result, param_params) = param.collect_forall();
            if !param_result.is_identifier(identifier) && param_result.contains(identifier) {
                return Err(
                    KernelError::MisshapenInductiveDefinition {
                        unexpected_subterm: param_result.duplicate(),
                        subterm_context: param_result.get_debug_context().duplicate(),
                        full_term_context: self.get_debug_context().duplicate(),
                    },
                );
            }
            let ghost qs = chain_params(param@, Binder::Forall);
            let m = param_params.len();
            let mut j: usize = 0;
            while j < m
                invariant
                    m == param_params@.len(),
                    m == qs.len(),
                    j <= m,
                    forall|k: int| 0 <= k < m ==> (#[trigger] param_params@[k]).1@ == qs[k].1,
                    first_occurrence(qs, identifier@, j as nat) == first_occurrence(
                        qs,
                        identifier@,
                        0,
                    ),
                    positivity_violation(self@, identifier@) == parameter_violation(
                        ps,
                        identifier@,
                        i as nat,
                    ),
                    parameter_violation(ps, identifier@, i as nat) == match first_occurrence(
                        qs,
                        identifier@,
                        0,
                    ) {
                        Some(n) => Some((true, n)),
                        None => parameter_violation(ps, identifier@, (i + 1) as nat),
                    },
                decreases m - j,
            {
                let pp = param_params[j].1;
                if pp.contains(identifier) {
                    return Err(
                        KernelError::NegativeInductiveDefinition {
                            negative_subterm: pp.duplicate(),
                            subterm_context: pp.get_debug_context().duplicate(),
                            full_term_context: self.get_debug_context().duplicate(),
                        },
                    );
                }
                j = j + 1;
            }
            i = i + 1;
        }
        Ok(())
    }
}

impl Term {
    /// Checks that every recursive invocation of `recursive` in this term is
    /// on a strictly smaller argument number `index`, as `decreasing` says.
    pub fn check_strictly_decreasing(
        &self,
        index: usize,
        parameter: &String,
        recursive: &String,
    ) -> (b: bool)
        ensures
            b == decreasing(self@, index as nat, parameter@, recursive@),
        decreases self, 3nat,
    {
        match self {
            Term::Identifier(s, _) => !(*s == *recursive),
            Term::Application { .. } => {
                let (head, _) = self.collect_application();
                if !self.decreasing_head_exec(index, parameter, recursive) {
                    return false;
                }
                if head.is_identifier(parameter) {
                    self.decreasing_arms_exec(index, parameter, recursive)
                } else {
                    self.decreasing_args_exec(index, parameter, recursive)
                }
            },
            Term::Lambda { binding_identifier, binding_type, value_term, .. }
            | Term::Forall { binding_identifier, binding_type, value_term, .. }
            | Term::FixedPoint { binding_identifier, binding_type, value_term, .. } => {
                binding_type.check_strictly_decreasing(index, parameter, recursive) && if *binding_identifier
                    == *parameter {
                    let empty = String::new();
                    value_term.check_strictly_decreasing(index, &empty, recursive)
                } else if *binding_identifier == *recursive {
                    true
                } else {
                    value_term.check_strictly_decreasing(index, parameter, recursive)
                }
            },
            Term::Constructor { type_term, value_term, .. } => {
                type_term.check_strictly_decreasing(index, parameter, recursive)
                    && value_term.check_strictly_decreasing(index, parameter, recursive)
            },
        }
    }

    fn decreasing_head_exec(&self, index: usize, parameter: &String, recursive: &String) -> (b:
        bool)
        ensures
            b == decreasing_head(self@, index as nat, parameter@, recursive@),
        decreases self, 0nat,
    {
        match self {
            Term::Application { function_term, .. } => match &**function_term {
                Term::Application { .. } => function_term.decreasing_head_exec(
                    index,
                    parameter,
                    recursive,
                ),
                _ => function_term.check_strictly_decreasing(index, parameter, recursive),
            },
            _ => true,
        }
    }

    fn decreasing_args_exec(&self, index: usize, parameter: &String, recursive: &String) -> (b:
        bool)
        ensures
            b == decreasing_args(self@, index as nat, parameter@, recursive@),
        decreases self, 0nat,
    {
        match self {
            Term::Application { function_term, parameter_term, .. } => {
                parameter_term.check_strictly_decreasing(index, parameter, recursive)
                    && match &**function_term {
                    Term::Application { .. } => function_term.decreasing_args_exec(
                        index,
                        parameter,
                        recursive,
                    ),
                    _ => true,
                }
            },
            _ => true,
        }
    }

    fn decreasing_arms_exec(&self, index: usize, parameter: &String, recursive: &String) -> (b:
        bool)
        ensures
            b == decreasing_arms(self@, index as nat, parameter@, recursive@),
        decreases self, 0nat,
    {
        match self {
            Term::Application { function_term, parameter_term, .. } => {
                parameter_term.match_argument_exec(index, parameter, recursive)
                    && match &**function_term {
                    Term::Application { .. } => function_term.decreasing_arms_exec(
                        index,
                        parameter,
                        recursive,
                    ),
                    _ => true,
                }
            },
            _ => true,
        }
    }

    fn match_argument_exec(&self, index: usize, parameter: &String, recursive: &String) -> (b:
        bool)
        ensures
            b == match_argument(self@, index as nat, parameter@, recursive@),
        decreases self, 5nat,
    {
        match self {
            Term::Lambda { .. } => {
                let allowed = self.lambda_binder_names();
                self.decreasing_arm_exec(&allowed, index, parameter, recursive)
            },
            _ => self.check_strictly_decreasing(index, parameter, recursive),
        }
    }

    /// The names bound by a chain of λ-abstractions, innermost first.
    fn lambda_binder_names(&self) -> (names: Vec<String>)
        ensures
            names@.map_values(|s: String| s@) == lambda_names(self@),
        decreases self,
    {
        match self {
            Term::Lambda { binding_identifier, value_term, .. } => {
                let mut names = value_term.lambda_binder_names();
                names.push(binding_identifier.clone());
                proof {
                    assert(lambda_names(self@) =~= lambda_names(value_term@).push(
                        binding_identifier@,
                    ));
                }
                names
            },
            _ => {
                let names: Vec<String> = Vec::new();
                names
            },
        }
    }

    fn decreasing_arm_exec(
        &self,
        allowed: &Vec<String>,
        index: usize,
        parameter: &String,
        recursive: &String,
    ) -> (b: bool)
        ensures
            b == decreasing_arm(
                self@,
                allowed@.map_values(|s: String| s@),
                index as nat,
                parameter@,
                recursive@,
            ),
        decreases self, 4nat,
    {
        match self {
            Term::Lambda { binding_type, value_term, .. } => {
                binding_type.check_strictly_decreasing(index, parameter, recursive)
                    && value_term.decreasing_arm_exec(allowed, index, parameter, recursive)
            },
            _ => self.check_strictly_decreasing_helper(index, parameter, allowed, recursive),
        }
    }

    /// Whether the recursive calls of `recursive` in this term are guarded by
    /// the `allowed` names, as `guarded` says.
    pub fn check_strictly_decreasing_helper(
        &self,
        index: usize,
        parameter: &String,
        allowed: &Vec<String>,
        recursive: &String,
    ) -> (b: bool)
        ensures
            b == guarded(
                self@,
                index as nat,
                parameter@,
                allowed@.map_values(|s: String| s@),
                recursive@,
            ),
        decreases self, 3nat,
    {
        let ghost names = allowed@.map_values(|s: String| s@);
        match self {
            Term::Identifier(s, _) => !(*s == *recursive),
            Term::Application { .. } => {
                let (head, args) = self.collect_application();
                if head.is_identifier(recursive) {
                    if index >= args.len() {
                        return false;
                    }
                    let arg = args[index];
                    let n = allowed.len();
                    let mut k: usize = 0;
                    #[verifier::loop_isolation(false)]
                    while k < n
                        invariant
                            n == allowed@.len(),
                            names == allowed@.map_values(|s: String| s@),
                            k <= n,
                            arg@ == app_args(self@)[index as int],
                            forall|j: int| 0 <= j < k ==> !is_var_named(arg@, #[trigger] names[j]),
                        decreases n - k,
                    {
                        if arg.is_identifier(&allowed[k]) {
                            assert(is_var_named(arg@, names[k as int]));
                            return true;
                        }
                        k = k + 1;
                    }
                    false
                } else {
                    self.guarded_args_exec(index, parameter, allowed, recursive)
                        && self.guarded_head_exec(index, parameter, allowed, recursive)
                }
            },
            Term::Lambda { binding_identifier, binding_type, value_term, .. }
            | Term::Forall { binding_identifier, binding_type, value_term, .. }
            | Term::FixedPoint { binding_identifier, binding_type, value_term, .. } => {
                if !binding_type.check_strictly_decreasing_helper(
                    index,
                    parameter,
                    allowed,
                    recursive,
                ) {
                    return false;
                }
                let empty = String::new();
                if *binding_identifier == *parameter {
                    value_term.check_strictly_decreasing(index, &empty, recursive)
                } else if *binding_identifier == *recursive {
                    true
                } else {
                    let n = allowed.len();
                    let mut k: usize = 0;
                    #[verifier::loop_isolation(false)]
                    while k < n
                        invariant
                            n == allowed@.len(),
                            names == allowed@.map_values(|s: String| s@),
                            k <= n,
                            first_position(names, binding_identifier@, k as nat)
                                == first_position(names, binding_identifier@, 0),
                        decreases n - k,
                    {
                        if allowed[k] == *binding_identifier {
                            let mut fewer = allowed.clone();
                            fewer.remove(k);
                            proof {
                                assert(fewer@.map_values(|s: String| s@) =~= names.remove(
                                    k as int,
                                ));
                            }
                            return value_term.check_strictly_decreasing_helper(
                                index,
                                &empty,
                                &fewer,
                                recursive,
                            );
                        }
                        k = k + 1;
                    }
                    value_term.check_strictly_decreasing_helper(index, &empty, allowed, recursive)
                }
            },
            Term::Constructor { type_term, value_term, .. } => {
                let empty = String::new();
                type_term.check_strictly_decreasing_helper(index, parameter, allowed, recursive)
                    && value_term.check_strictly_decreasing_helper(
                    index,
                    &empty,
                    allowed,
                    recursive,
                )
            },
        }
    }

    fn guarded_head_exec(
        &self,
        index: usize,
        parameter: &String,
        allowed: &Vec<String>,
        recursive: &String,
    ) -> (b: bool)
        ensures
            b == guarded_head(
                self@,
                index as nat,
                parameter@,
                allowed@.map_values(|s: String| s@),
                recursive@,
            ),
        decreases self, 0nat,
    {
        match self {
            Term::Application { function_term, .. } => match &**function_term {
                Term::Application { .. } => function_term.guarded_head_exec(
                    index,
                    parameter,
                    allowed,
                    recursive,
                ),
                _ => function_term.check_strictly_decreasing_helper(
                    index,
                    parameter,
                    allowed,
                    recursive,
                ),
            },
            _ => true,
        }
    }

    fn guarded_args_exec(
        &self,
        index: usize,
        parameter: &String,
        allowed: &Vec<String>,
        recursive: &String,
    ) -> (b: bool)
        ensures
            b == guarded_args(
                self@,
                index as nat,
                parameter@,
                allowed@.map_values(|s: String| s@),
                recursive@,
            ),
        decreases self, 0nat,
    {
        match self {
            Term::Application { function_term, parameter_term, .. } => {
                parameter_term.check_strictly_decreasing_helper(
                    index,
                    parameter,
                    allowed,
                    recursive,
                ) && match &**function_term {
                    Term::Application { .. } => function_term.guarded_args_exec(
                        index,
                        parameter,
                        allowed,
                        recursive,
                    ),
                    _ => true,
                }
            },
            _ => true,
        }
    }
}

/// The first `n` elements of a slice.
fn slice_prefix<T>(s: &[T], n: usize) -> (r: &[T])
    requires
        n <= s@.len(),
    ensures
        r@ == s@.take(n as int),
{
    let (a, _) = s.split_at(n);
    a
}

} // verus!
