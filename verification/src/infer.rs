//! Type inference.
use vstd::prelude::*;
use crate::error::{failure, outcome, Fault, KernelError};
use crate::inductive::chain_body;
use crate::names::{decimal, is_literal, literal, suffixed, universe_level_of, universe_root};
use crate::rules::{
    binder_name, binding_check, captured, forall_result, identifier_type, inductive_check, innermost_binding,
    is_universe_tm, lambda_spine, match_candidate, match_generic, product_check, prop_name,
    recursion_from, renamed_body, set_name, stack_model, typing, typing_application,
    typing_argument, typing_constructor, typing_fixed_point, typing_forall, typing_lambda,
    uncaptured_from,
};
use crate::state::State;
use crate::term::{Binder, Term, TermDebugContext, Tm};

verus! {

impl Term {
    /// Whether `identifier` is bound on the stack or defined in the state.
    pub fn is_captured(identifier: &String, state: &State, stack: &Vec<(String, Term)>) -> (b:
        bool)
        ensures
            b == captured(identifier@, state.entries(), stack_model(stack@)),
    {
        let n = stack.len();
        let mut i: usize = 0;
        while i < n
            invariant
                n == stack@.len(),
                i <= n,
                forall|j: int| 0 <= j < i ==> stack@[j].0@ != identifier@,
            decreases n - i,
        {
            if *identifier == stack[i].0 {
                assert(stack_model(stack@)[i as int].0 == identifier@);
                return true;
            }
            i = i + 1;
        }
        match state.find(identifier) {
            Some(_) => true,
            None => false,
        }
    }

    /// The name under which binder `b` with body `body` is typed, and the
    /// body renamed accordingly.
    fn fresh_binder(b: &String, body: &Term, state: &State, stack: &Vec<(String, Term)>) -> (r: (
        String,
        Term,
    ))
        ensures
            r.0@ == binder_name(b@, state.entries(), stack_model(stack@)),
            r.1@ == renamed_body(body@, b@, r.0@),
    {
        if !Self::is_captured(b, state, stack) {
            return (b.clone(), body.duplicate());
        }
        let ghost defs = state.entries();
        let ghost st = stack_model(stack@);
        let mut k: u64 = 0;
        loop
            invariant
                defs == state.entries(),
                st == stack_model(stack@),
                uncaptured_from(b@, k, defs, st) == uncaptured_from(b@, 0, defs, st),
                captured(b@, defs, st),
            decreases u64::MAX - k,
        {
            let name = suffixed(b, k);
            if !Self::is_captured(&name, state, stack) {
                let w = Term::Identifier(name.clone(), TermDebugContext::Ignore);
                let renamed = body.substituted(b, &w);
                return (name, renamed);
            }
            if k == u64::MAX {
                return (b.clone(), body.duplicate());
            }
            k = k + 1;
        }
    }

    /// The type of an identifier, as `identifier_type` says.
    fn infer_identifier(
        s: &String,
        db: &TermDebugContext,
        state: &State,
        stack: &Vec<(String, Term)>,
    ) -> (r: Result<Term, KernelError>)
        ensures
            outcome(r) == match identifier_type(s@, *db, stack_model(stack@), state.entries()) {
                Some(ty) => Ok(ty),
                None => Err(Fault::UndefinedIdentifier(s@, *db)),
            },
    {
        proof {
            reveal_strlit("Set");
            reveal_strlit("Prop");
            reveal_strlit("Type");
            reveal_strlit("Type0");
            assert("Set"@ =~= set_name());
            assert("Prop"@ =~= prop_name());
            assert("Type"@ =~= universe_root());
            assert("Type0"@ =~= universe_root() + decimal(0));
        }
        let ctx = TermDebugContext::TypeOf(Box::new(db.duplicate()));
        if is_literal(s, "Set") || is_literal(s, "Prop") {
            return Ok(Term::Identifier(literal("Type"), ctx));
        }
        if is_literal(s, "Type") {
            return Ok(Term::Identifier(literal("Type0"), ctx));
        }
        match universe_level_of(s) {
            Some(n) => {
                let next = if n == u64::MAX {
                    0
                } else {
                    n + 1
                };
                let root = literal("Type");
                return Ok(Term::Identifier(suffixed(&root, next), ctx));
            },
            None => {},
        }
        let ghost st = stack_model(stack@);
        let mut n = stack.len();
        #[verifier::loop_isolation(false)]
        while n > 0
            invariant
                n <= stack@.len(),
                st == stack_model(stack@),
                innermost_binding(st, s@, n as nat) == innermost_binding(st, s@, st.len()),
            decreases n,
        {
            if *s == stack[n - 1].0 {
                return Ok(stack[n - 1].1.duplicate());
            }
            n = n - 1;
        }
        match state.find(s) {
            Some(i) => {
                state.names_are_distinct();
                proof {
                    State::lemma_definition_at(state.entries(), i as int);
                }
                Ok(state.type_at(i).duplicate())
            },
            None => Err(KernelError::UndefinedIdentifier { identifier: s.clone(), identifier_context: db.duplicate() }),
        }
    }
}


/// The model of a result that is a truth value.
pub open spec fn verdict(r: Result<bool, KernelError>) -> Result<bool, Fault> {
    match r {
        Ok(b) => Ok(b),
        Err(e) => Err(e@),
    }
}

/// A stack with one more binding.
proof fn lemma_stack_push(stack: Seq<(String, Term)>, e: (String, Term))
    ensures
        stack_model(stack.push(e)) == stack_model(stack).push((e.0@, e.1@)),
{
}

impl Term {
    /// Whether this term is an identifier naming a universe (`Type` or `Type<n>`).
    fn is_universe_term(&self) -> (b: bool)
        ensures
            b == is_universe_tm(self@),
    {
        proof {
            reveal_strlit("Type");
            assert("Type"@ =~= universe_root());
        }
        match self {
            Term::Identifier(s, _) => is_literal(s, "Type") || universe_level_of(s).is_some(),
            _ => false,
        }
    }

    /// Whether this term is an identifier.
    fn is_identifier_term(&self) -> (b: bool)
        ensures
            b == self@ is Var,
    {
        match self {
            Term::Identifier(_, _) => true,
            _ => false,
        }
    }

    /// Checks that `ty` is a valid binding type, as `binding_check` says.
    fn check_binding_type(
        ty: &Term,
        state: &State,
        stack: &mut Vec<(String, Term)>,
        depth: u64,
    ) -> (r: Result<(), KernelError>)
        requires
            depth > 0,
        ensures
            r is Ok ==> final(stack)@ == old(stack)@,
            failure(r) == binding_check(
                ty@,
                state.entries(),
                stack_model(old(stack)@),
                (depth - 1) as nat,
            ),
        decreases depth, 0nat,
    {
        let mut ty_type = ty.infer_type_recursive(state, stack, depth - 1)?;
        ty_type.infer_type_recursive(state, stack, depth - 1)?;
        ty_type.homonymous_normalize(state);
        if !ty_type.is_identifier_term() {
            return Err(
                KernelError::InvalidType {
                    incorrect_term: ty.duplicate(),
                    incorrect_type: ty_type,
                    incorrect_context: ty.get_debug_context().duplicate(),
                },
            );
        }
        let mut ty_type_type = ty_type.infer_type_recursive(state, stack, depth - 1)?;
        ty_type_type.infer_type_recursive(state, stack, depth - 1)?;
        ty_type_type.homonymous_normalize(state);
        if !ty_type_type.is_universe_term() {
            return Err(
                KernelError::InvalidType {
                    incorrect_term: ty.duplicate(),
                    incorrect_type: ty_type,
                    incorrect_context: ty.get_debug_context().duplicate(),
                },
            );
        }
        Ok(())
    }

    /// Type inference for λ-abstractions, as `typing_lambda` says.
    fn infer_lambda(
        &self,
        state: &State,
        stack: &mut Vec<(String, Term)>,
        depth: u64,
    ) -> (r: Result<Term, KernelError>)
        requires
            depth > 0,
        ensures
            r is Ok ==> final(stack)@ == old(stack)@,
            outcome(r) == typing_lambda(
                self@,
                state.entries(),
                stack_model(old(stack)@),
                (depth - 1) as nat,
            ),
        decreases depth, 2nat,
    {
        match self {
            Term::Lambda { binding_identifier, binding_type, value_term, debug_context } => {
                Self::check_binding_type(binding_type, state, stack, depth)?;
                let (new_binding_identifier, new_value_term) = Self::fresh_binder(
                    binding_identifier,
                    value_term,
                    state,
                    stack,
                );
                let ghost before = stack@;
                let entry = (new_binding_identifier.clone(), binding_type.duplicate());
                proof {
                    lemma_stack_push(before, entry);
                }
                stack.push(entry);
                let inner_type = new_value_term.infer_type_recursive(state, stack, depth - 1)?;
                stack.pop();
                Ok(
                    Term::Forall {
                        binding_identifier: new_binding_identifier,
                        binding_type: Box::new(binding_type.duplicate()),
                        value_term: Box::new(inner_type),
                        debug_context: TermDebugContext::TypeOf(
                            Box::new(debug_context.duplicate()),
                        ),
                    },
                )
            },
            _ => Err(KernelError::InvalidInstance {  }),
        }
    }

    /// Whether the type `inner` of the body of a product is valid, as
    /// `product_check` says.
    fn check_product(
        inner: &Term,
        state: &State,
        stack: &mut Vec<(String, Term)>,
        depth: u64,
    ) -> (r: Result<bool, KernelError>)
        requires
            depth > 0,
        ensures
            r is Ok ==> final(stack)@ == old(stack)@,
            verdict(r) == product_check(
                inner@,
                state.entries(),
                stack_model(old(stack)@),
                (depth - 1) as nat,
            ),
        decreases depth, 0nat,
    {
        if !inner.is_identifier_term() {
            return Ok(false);
        }
        let mut inner_type = inner.infer_type_recursive(state, stack, depth - 1)?;
        inner_type.infer_type_recursive(state, stack, depth - 1)?;
        inner_type.full_normalize(state);
        Ok(inner_type.is_universe_term())
    }

    /// The type of a product once its body `body2`, with its binder renamed
    /// to `name`, has type `inner_type`, as `forall_result` says.
    #[verifier::rlimit(50)]
    #[verifier::spinoff_prover]
    fn finish_forall(
        inner_type: Term,
        body2: &Term,
        name: &String,
        db: &TermDebugContext,
        state: &State,
        stack: &mut Vec<(String, Term)>,
        depth: u64,
    ) -> (r: Result<Term, KernelError>)
        requires
            depth > 0,
        ensures
            r is Ok ==> final(stack)@ == old(stack)@,
            outcome(r) == forall_result(
                inner_type@,
                body2@,
                name@,
                *db,
                state.entries(),
                stack_model(old(stack)@),
                (depth - 1) as nat,
            ),
        decreases depth, 1nat,
    {
        proof {
            reveal_strlit("Set");
            assert("Set"@ =~= set_name());
        }
        let mut inner_type = inner_type;
        // the type of ∀x:P.Q is shown as the type of Q only when Q lacks x
        if body2.contains(name) {
            inner_type = inner_type.with_new_debug_context(
                &TermDebugContext::TypeOf(Box::new(db.duplicate())),
            );
        }
        inner_type.infer_type_recursive(state, stack, depth - 1)?;
        inner_type.homonymous_normalize(state);
        let valid = Self::check_product(&inner_type, state, stack, depth)?;
        if !valid {
            return Err(
                KernelError::InvalidType {
                    incorrect_term: body2.duplicate(),
                    incorrect_type: inner_type,
                    incorrect_context: body2.get_debug_context().duplicate(),
                },
            );
        }
        if inner_type.is_identifier(name) {
            if let Term::Forall { binding_identifier, value_term, .. } = body2 {
                value_term.check_strict_positivity(binding_identifier)?;
            }
            return Ok(
                Term::Identifier(
                    literal("Set"),
                    TermDebugContext::TypeOf(Box::new(db.duplicate())),
                ),
            );
        }
        Ok(inner_type)
    }

    /// Type inference for products, as `typing_forall` says.
    fn infer_forall(
        &self,
        state: &State,
        stack: &mut Vec<(String, Term)>,
        depth: u64,
    ) -> (r: Result<Term, KernelError>)
        requires
            depth > 0,
        ensures
            r is Ok ==> final(stack)@ == old(stack)@,
            outcome(r) == typing_forall(
                self@,
                state.entries(),
                stack_model(old(stack)@),
                (depth - 1) as nat,
            ),
        decreases depth, 2nat,
    {
        match self {
            Term::Forall { binding_identifier, binding_type, value_term, debug_context } => {
                Self::check_binding_type(binding_type, state, stack, depth)?;
                let (new_binding_identifier, new_value_term) = Self::fresh_binder(
                    binding_identifier,
                    value_term,
                    state,
                    stack,
                );
                let ghost before = stack@;
                let entry = (new_binding_identifier.clone(), binding_type.duplicate());
                proof {
                    lemma_stack_push(before, entry);
                }
                stack.push(entry);
                let inner_type = new_value_term.infer_type_recursive(state, stack, depth - 1)?;
                let result = Self::finish_forall(
                    inner_type,
                    &new_value_term,
                    &new_binding_identifier,
                    debug_context,
                    state,
                    stack,
                    depth,
                )?;
                stack.pop();
                Ok(result)
            },
            _ => Err(KernelError::InvalidInstance {  }),
        }
    }

    /// Type inference for constructor terms ℺A.B, as `typing_constructor` says.
    fn infer_constructor(
        &self,
        state: &State,
        stack: &mut Vec<(String, Term)>,
        depth: u64,
    ) -> (r: Result<Term, KernelError>)
        requires
            depth > 0,
        ensures
            r is Ok ==> final(stack)@ == old(stack)@,
            outcome(r) == typing_constructor(
                self@,
                state.entries(),
                stack_model(old(stack)@),
                (depth - 1) as nat,
            ),
        decreases depth, 2nat,
    {
        match self {
            Term::Constructor { type_term, value_term, .. } => {
                let mut value_term_type = value_term.infer_type_recursive(state, stack, depth - 1)?;
                value_term_type.full_normalize(state);
                let mut expanded_type_term = type_term.duplicate();
                expanded_type_term.infer_type_recursive(state, stack, depth - 1)?;
                expanded_type_term.homonymous_normalize(state);
                expanded_type_term.fixed_point_reduce(true);
                expanded_type_term.full_normalize(state);
                if value_term_type.same_term(&expanded_type_term) {
                    Ok(type_term.duplicate())
                } else {
                    Err(KernelError::InvalidInstance {  })
                }
            },
            _ => Err(KernelError::InvalidInstance {  }),
        }
    }

    /// Type inference of a term, with the bound variables on `stack`,
    /// nesting at most `depth` levels deep, as `typing` says.
    fn infer_type_recursive(
        &self,
        state: &State,
        stack: &mut Vec<(String, Term)>,
        depth: u64,
    ) -> (r: Result<Term, KernelError>)
        ensures
            r is Ok ==> final(stack)@ == old(stack)@,
            outcome(r) == typing(self@, state.entries(), stack_model(old(stack)@), depth as nat),
        decreases depth, 3nat,
    {
        if depth == 0 {
            return Err(KernelError::InferenceDepthExceeded {  });
        }
        match self {
            Term::Identifier(s, db) => Self::infer_identifier(s, db, state, stack),
            Term::Application { .. } => self.infer_application(state, stack, depth),
            Term::Lambda { .. } => self.infer_lambda(state, stack, depth),
            Term::Forall { .. } => self.infer_forall(state, stack, depth),
            Term::FixedPoint { .. } => self.infer_fixed_point(state, stack, depth),
            Term::Constructor { .. } => self.infer_constructor(state, stack, depth),
        }
    }

    /// Infers the type of a term, which is in turn also a term.
    ///
    /// Will return an error if the given term is invalid.
    pub fn infer_type(&self, state: &State) -> (r: Result<Term, KernelError>)
        ensures
            outcome(r) == typing(self@, state.entries(), Seq::empty(), u64::MAX as nat),
    {
        let mut stack: Vec<(String, Term)> = Vec::new();
        assert(stack_model(stack@) =~= Seq::<(Seq<char>, Tm)>::empty());
        self.infer_type_recursive(state, &mut stack, u64::MAX)
    }
}

impl Term {
    /// The name R when a match is possible on a term of type `t`, as
    /// `match_generic` says.
    fn match_shape(t: &Term) -> (r: Option<String>)
        ensures
            match r {
                Some(g) => match_generic(t@) == Some(g@),
                None => match_generic(t@) is None,
            },
    {
        proof {
            reveal_strlit("Type");
            assert("Type"@ =~= universe_root());
        }
        let body: &Term = match t {
            Term::FixedPoint { binding_type, value_term, .. } => {
                if binding_type.is_identifier_term() {
                    value_term
                } else {
                    t
                }
            },
            _ => t,
        };
        assert(body@ == crate::rules::shape_body(t@));
        match body {
            Term::Forall { binding_identifier, binding_type, value_term, .. } => {
                let universe = literal("Type");
                if !binding_type.is_identifier(&universe) {
                    return None;
                }
                match &**value_term {
                    Term::Forall { binding_type: inner_type, .. } => {
                        assert(value_term@ matches Tm::Bind(Binder::Forall, _, t4, _, _)
                            && *t4 == inner_type@);
                        if inner_type.is_identifier(binding_identifier) {
                            Some(binding_identifier.clone())
                        } else {
                            None
                        }
                    },
                    _ => {
                        None
                    },
                }
            },
            _ => None,
        }
    }

    /// The head of the normalized function `nf` of a candidate match term,
    /// with its type, as `match_candidate` says.
    fn match_head(
        nf: &Term,
        state: &State,
        stack: &mut Vec<(String, Term)>,
        depth: u64,
    ) -> (r: Result<Option<(Term, Term)>, KernelError>)
        requires
            depth > 0,
        ensures
            r is Ok ==> final(stack)@ == old(stack)@,
            match_candidate(nf@, state.entries(), stack_model(old(stack)@), (depth - 1) as nat)
                == match r {
                Ok(Some((h, ht))) => Ok(Some((h@, ht@))),
                Ok(None) => Ok(None),
                Err(e) => Err(e@),
            },
        decreases depth, 0nat,
    {
        match nf {
            Term::Application { function_term, .. } => {
                match &**function_term {
                    Term::Application { .. } => Ok(None),
                    _ => {
                        let head_type = function_term.infer_type_recursive(state, stack, depth - 1)?;
                        Ok(Some((function_term.duplicate(), head_type)))
                    },
                }
            },
            _ => Ok(None),
        }
    }

    /// Type inference for an application A B once the type of A, normalized
    /// to `nf`, is the product `ft`, as `typing_argument` says.
    fn infer_argument(
        &self,
        nf: &Term,
        ft: &Term,
        state: &State,
        stack: &mut Vec<(String, Term)>,
        depth: u64,
    ) -> (r: Result<Term, KernelError>)
        requires
            depth > 0,
        ensures
            r is Ok ==> final(stack)@ == old(stack)@,
            outcome(r) == typing_argument(
                self@,
                nf@,
                ft@,
                state.entries(),
                stack_model(old(stack)@),
                (depth - 1) as nat,
            ),
        decreases depth, 1nat,
    {
        match (self, ft) {
            (
                Term::Application { function_term, parameter_term, debug_context },
                Term::Forall { binding_identifier, binding_type, value_term, .. },
            ) => {
                let mut parameter_type = parameter_term.infer_type_recursive(
                    state,
                    stack,
                    depth - 1,
                )?;
                parameter_type.infer_type_recursive(state, stack, depth - 1)?;
                parameter_type.full_normalize(state);
                let mut expected_parameter_type = binding_type.duplicate();
                expected_parameter_type.infer_type_recursive(state, stack, depth - 1)?;
                expected_parameter_type.full_normalize(state);
                let candidate = Self::match_head(nf, state, stack, depth)?;
                let generic = match &candidate {
                    Some((_, head_type)) => Self::match_shape(head_type),
                    None => None,
                };
                if !parameter_type.same_term(&expected_parameter_type) && generic.is_none() {
                    return Err(
                        KernelError::NonmatchingArgument {
                            expected_type: expected_parameter_type,
                            observed_type: parameter_type,
                            function_context: function_term.get_debug_context().duplicate(),
                            parameter_context: parameter_term.get_debug_context().duplicate(),
                        },
                    );
                }
                match (candidate, generic) {
                    (Some((Term::Identifier(s, _), head_type)), Some(g)) => {
                        let mut replaced = ft.duplicate();
                        replaced.match_replace(&s, &g, parameter_term, &head_type);
                        Ok(replaced)
                    },
                    _ => {
                        let mut output_type = value_term.with_new_debug_context(
                            &TermDebugContext::TypeOf(Box::new(debug_context.duplicate())),
                        );
                        // replace after assigning the new debug context, so that the
                        // type of (λx:T.x) P is shown simply as the type of P
                        output_type.replace(binding_identifier, parameter_term);
                        Ok(output_type)
                    },
                }
            },
            _ => Err(KernelError::InvalidInstance {  }),
        }
    }

    /// Type inference for applications A B, including match terms C D B, as
    /// `typing_application` says.
    #[verifier::rlimit(50)]
    fn infer_application(
        &self,
        state: &State,
        stack: &mut Vec<(String, Term)>,
        depth: u64,
    ) -> (r: Result<Term, KernelError>)
        requires
            depth > 0,
        ensures
            r is Ok ==> final(stack)@ == old(stack)@,
            outcome(r) == typing_application(
                self@,
                state.entries(),
                stack_model(old(stack)@),
                (depth - 1) as nat,
            ),
        decreases depth, 2nat,
    {
        match self {
            Term::Application { function_term, parameter_term, .. } => {
                let mut normalized_function_term = function_term.duplicate();
                normalized_function_term.infer_type_recursive(state, stack, depth - 1)?;
                normalized_function_term.homonymous_normalize(state);
                let mut function_type = normalized_function_term.infer_type_recursive(
                    state,
                    stack,
                    depth - 1,
                )?;
                function_type.infer_type_recursive(state, stack, depth - 1)?;
                function_type.homonymous_normalize(state);
                let unfolded = match &function_type {
                    Term::FixedPoint { binding_identifier, value_term, .. } => {
                        let mut unrolled = value_term.substituted(binding_identifier, &function_type);
                        unrolled.normalize();
                        Some(unrolled)
                    },
                    _ => None,
                };
                match unfolded {
                    Some(t) => {
                        function_type = t;
                    },
                    None => {},
                }
                match &function_type {
                    Term::Forall { .. } => self.infer_argument(
                        &normalized_function_term,
                        &function_type,
                        state,
                        stack,
                        depth,
                    ),
                    _ => Err(
                        KernelError::InvalidApplication {
                            nonfunction_type: function_type.duplicate(),
                            nonfunction_context: function_term.get_debug_context().duplicate(),
                            parameter_context: parameter_term.get_debug_context().duplicate(),
                        },
                    ),
                }
            },
            _ => Err(KernelError::InvalidInstance {  }),
        }
    }

    /// The parameters of a chain of λ-abstractions, outermost first, and its body.
    fn lambda_chain(&self) -> (r: (Vec<(String, Term)>, Term))
        ensures
            r.0@.map_values(|p: (String, Term)| (p.0@, p.1@)) == lambda_spine(self@),
            r.1@ == chain_body(self@, Binder::Lambda),
        decreases self,
    {
        match self {
            Term::Lambda { binding_identifier, binding_type, value_term, .. } => {
                let (inner, body) = value_term.lambda_chain();
                let mut params: Vec<(String, Term)> = Vec::new();
                params.push((binding_identifier.clone(), binding_type.duplicate()));
                let mut i: usize = 0;
                while i < inner.len()
                    invariant
                        i <= inner@.len(),
                        params@.len() == i + 1,
                        params@[0].0@ == binding_identifier@,
                        params@[0].1@ == binding_type@,
                        forall|j: int|
                            0 <= j < i ==> (#[trigger] params@[j + 1]).0@ == inner@[j].0@
                                && params@[j + 1].1@ == inner@[j].1@,
                    decreases inner@.len() - i,
                {
                    params.push((inner[i].0.clone(), inner[i].1.duplicate()));
                    i = i + 1;
                }
                let ghost im = inner@.map_values(|p: (String, Term)| (p.0@, p.1@));
                let ghost pm = params@.map_values(|p: (String, Term)| (p.0@, p.1@));
                let ghost expect = seq![(binding_identifier@, binding_type@)] + im;
                assert forall|j: int| 0 <= j < pm.len() implies pm[j] == expect[j] by {
                    if j > 0 {
                        assert(params@[(j - 1) + 1].0@ == inner@[j - 1].0@);
                    }
                }
                (params, body)
            },
            _ => {
                let params: Vec<(String, Term)> = Vec::new();
                (params, self.duplicate())
            },
        }
    }

    /// Checks a recursive function λx1:A1. ... C bound to `recursive`, as
    /// `recursion_from` says from the first parameter on: the parameters
    /// before the one it recurses on are bound on the stack while the types
    /// after them are inferred.
    fn check_recursive_function(
        function: &Term,
        recursive: &String,
        full_context: &TermDebugContext,
        state: &State,
        stack: &mut Vec<(String, Term)>,
        depth: u64,
    ) -> (r: Result<(), KernelError>)
        requires
            depth > 0,
        ensures
            r is Ok ==> final(stack)@ == old(stack)@,
            failure(r) == recursion_from(
                lambda_spine(function@),
                chain_body(function@, Binder::Lambda),
                recursive@,
                *full_context,
                state.entries(),
                stack_model(old(stack)@),
                0,
                (depth - 1) as nat,
            ),
        decreases depth, 0nat,
    {
        proof {
            reveal_strlit("Set");
        }
        let (parameter_list, current_term) = function.lambda_chain();
        let ghost params = lambda_spine(function@);
        let ghost body = chain_body(function@, Binder::Lambda);
        let ghost defs = state.entries();
        let ghost f = (depth - 1) as nat;
        let ghost start = stack@;
        let ghost goal = recursion_from(
            params,
            body,
            recursive@,
            *full_context,
            defs,
            stack_model(start),
            0,
            f,
        );
        let n_params = parameter_list.len();
        let mut n: usize = 0;
        while n < n_params
            invariant
                n_params == parameter_list@.len(),
                params == parameter_list@.map_values(|p: (String, Term)| (p.0@, p.1@)),
                body == current_term@,
                defs == state.entries(),
                f == (depth - 1) as nat,
                n <= n_params,
                stack@.len() == start.len() + n,
                stack@.take(start.len() as int) == start,
                start == old(stack)@,
                depth > 0,
                params == lambda_spine(function@),
                params.len() == n_params,
                "Set"@ == set_name(),
                body == chain_body(function@, Binder::Lambda),
                goal == recursion_from(
                    params,
                    body,
                    recursive@,
                    *full_context,
                    defs,
                    stack_model(start),
                    0,
                    f,
                ),
                recursion_from(params, body, recursive@, *full_context, defs, stack_model(stack@), n as nat, f)
                    == goal,
            decreases n_params - n,
        {
            let parameter_type = &parameter_list[n].1;
            if parameter_type.contains(recursive) {
                return Err(
                    KernelError::NonprimitiveRecursiveFunction { full_term_context: full_context.duplicate() },
                );
            }
            let parameter_type_type = parameter_type.infer_type_recursive(state, stack, depth - 1)?;
            let is_set = match &parameter_type_type {
                Term::Identifier(s, _) => is_literal(s, "Set"),
                _ => false,
            };
            let inductive = Self::match_shape(parameter_type).is_some();
            if is_set && inductive && current_term.check_strictly_decreasing(
                n,
                &parameter_list[n].0,
                recursive,
            ) {
                let mut m: usize = 0;
                while m < n
                    invariant
                        m <= n,
                        stack@.len() == start.len() + n - m,
                        stack@.take(start.len() as int) == start,
                    decreases n - m,
                {
                    stack.pop();
                    m = m + 1;
                }
                return Ok(());
            }
            let ghost before = stack@;
            let entry = (parameter_list[n].0.clone(), parameter_list[n].1.duplicate());
            proof {
                lemma_stack_push(before, entry);
            }
            stack.push(entry);
            n = n + 1;
        }
        Err(KernelError::NonprimitiveRecursiveFunction { full_term_context: full_context.duplicate() })
    }

    /// Checks a recursive inductive type ∀x1:A1.∀x2:A2. ... C bound to
    /// `recursive`, as `inductive_check` says.
    fn check_inductive_type(chain: &Term, recursive: &String) -> (r: Result<(), KernelError>)
        ensures
            failure(r) == inductive_check(chain@, recursive@),
        decreases chain,
    {
        match chain {
            Term::Forall { binding_type, value_term, .. } => {
                binding_type.check_strict_positivity(recursive)?;
                Self::check_inductive_type(value_term, recursive)
            },
            _ => Ok(()),
        }
    }

    /// Type inference for fixed points 𝐘x:A.B, as `typing_fixed_point` says.
    #[verifier::rlimit(100)]
    fn infer_fixed_point(
        &self,
        state: &State,
        stack: &mut Vec<(String, Term)>,
        depth: u64,
    ) -> (r: Result<Term, KernelError>)
        requires
            depth > 0,
        ensures
            r is Ok ==> final(stack)@ == old(stack)@,
            outcome(r) == typing_fixed_point(
                self@,
                state.entries(),
                stack_model(old(stack)@),
                (depth - 1) as nat,
            ),
        decreases depth, 2nat,
    {
        match self {
            Term::FixedPoint { binding_identifier, binding_type, value_term, .. } => {
                binding_type.infer_type_recursive(state, stack, depth - 1)?;
                let (new_binding_identifier, mut new_value_term) = Self::fresh_binder(
                    binding_identifier,
                    value_term,
                    state,
                    stack,
                );
                let ghost outer = stack@;
                let entry = (new_binding_identifier.clone(), binding_type.duplicate());
                proof {
                    lemma_stack_push(outer, entry);
                }
                stack.push(entry);
                let inner_type = new_value_term.infer_type_recursive(state, stack, depth - 1)?;
                if inner_type.contains(&new_binding_identifier) {
                    return Err(
                        KernelError::SelfReferencingRecursiveType {
                            full_term_context: self.get_debug_context().duplicate(),
                        },
                    );
                }
                let body_context = new_value_term.get_debug_context().duplicate();
                new_value_term.homonymous_normalize(state);
                match &new_value_term {
                    Term::Lambda { .. } => {
                        Self::check_recursive_function(
                            &new_value_term,
                            &new_binding_identifier,
                            self.get_debug_context(),
                            state,
                            stack,
                            depth,
                        )?;
                    },
                    Term::Forall { .. } => {
                        Self::check_inductive_type(&new_value_term, &new_binding_identifier)?;
                    },
                    _ => {
                        return Err(
                            KernelError::MisshapenRecursiveDefinition {
                                unexpected_subterm: new_value_term.duplicate(),
                                subterm_context: new_value_term.get_debug_context().duplicate(),
                                full_term_context: self.get_debug_context().duplicate(),
                            },
                        );
                    },
                }
                stack.pop();
                let mut expected = binding_type.duplicate();
                expected.full_normalize(state);
                let mut observed = inner_type;
                observed.full_normalize(state);
                if !expected.same_term(&observed) {
                    return Err(
                        KernelError::NonmatchingDefinition {
                            expected_type: expected,
                            observed_type: observed,
                            signature_context: binding_type.get_debug_context().duplicate(),
                            definition_context: body_context,
                        },
                    );
                }
                Ok(binding_type.duplicate())
            },
            _ => Err(KernelError::InvalidInstance {  }),
        }
    }
}

} // verus!
