//! Terms of the calculus, their mathematical model, and basic queries.
use vstd::prelude::*;

verus! {

/// A type containing extra information for debugging proofs.
///
/// Code manipulating this type does not affect proof checking:
/// every comparison of terms ignores it.
#[derive(Debug)]
pub enum TermDebugContext {
    /// No information, don't propagate.
    Ignore,
    /// The term originates from a span of the input source code.
    CodeSpan((usize, usize)),
    /// The term is the type of a term with a given debug context.
    TypeOf(Box<TermDebugContext>),
}

impl TermDebugContext {
    /// The source span a context points at: the span of the innermost
    /// `CodeSpan`, or `(0, 0)` when the chain ends in `Ignore`.
    pub open spec fn span_of(self) -> (usize, usize)
        decreases self,
    {
        match self {
            TermDebugContext::Ignore => (0, 0),
            TermDebugContext::CodeSpan(s) => s,
            TermDebugContext::TypeOf(b) => b.span_of(),
        }
    }

    /// Get the span of source code containing this term.
    pub fn get_span(&self) -> (span: (usize, usize))
        ensures
            span == self.span_of(),
        decreases self,
    {
        match self {
            TermDebugContext::Ignore => (0, 0),
            TermDebugContext::CodeSpan(s) => *s,
            TermDebugContext::TypeOf(b) => b.get_span(),
        }
    }

    /// A copy of this context, equal to it.
    pub fn duplicate(&self) -> (copy: Self)
        ensures
            copy == *self,
        decreases self,
    {
        match self {
            TermDebugContext::Ignore => TermDebugContext::Ignore,
            TermDebugContext::CodeSpan(s) => TermDebugContext::CodeSpan(*s),
            TermDebugContext::TypeOf(b) => TermDebugContext::TypeOf(Box::new(b.duplicate())),
        }
    }
}

impl Clone for TermDebugContext {
    fn clone(&self) -> (copy: Self)
        ensures
            copy == *self,
    {
        self.duplicate()
    }
}

/// A (valid or invalid) term in Calculus of Constructions.
#[derive(Debug)]
pub enum Term {
    /// A symbol representing a bound variable,
    /// a different term in the current state,
    /// or the special identifiers `Prop` and `Type(1)`.
    Identifier(String, TermDebugContext),
    /// Application of an object onto another,
    /// i.e. A B, for any terms A and B.
    Application {
        function_term: Box<Term>,
        parameter_term: Box<Term>,
        debug_context: TermDebugContext,
    },
    /// Typed lambda abstraction, i.e. λx:A.B,
    /// for any identifier x and terms A and B.
    Lambda {
        binding_identifier: String,
        binding_type: Box<Term>,
        value_term: Box<Term>,
        debug_context: TermDebugContext,
    },
    /// Typed for all ... expression, i.e. ∀x:A.B,
    /// for any identifier x and terms A and B.
    Forall {
        binding_identifier: String,
        binding_type: Box<Term>,
        value_term: Box<Term>,
        debug_context: TermDebugContext,
    },
    /// Inductive Y combinator-like, i.e. 𝐘x:A.B,
    /// for any identifier x and terms A and B.
    FixedPoint {
        binding_identifier: String,
        binding_type: Box<Term>,
        value_term: Box<Term>,
        debug_context: TermDebugContext,
    },
    /// Constructor return value, i.e. ℺A.B,
    /// for any terms A and B.
    Constructor {
        type_term: Box<Term>,
        value_term: Box<Term>,
        debug_context: TermDebugContext,
    },
}

/// The three binding forms of the calculus: λ, ∀ and 𝐘.
#[derive(PartialEq, Eq, Structural)]
pub enum Binder {
    Lambda,
    Forall,
    FixedPoint,
}

/// The mathematical model of a term: identifiers are character sequences,
/// and the three binding forms share one shape.
pub enum Tm {
    Var(Seq<char>, TermDebugContext),
    App(Box<Tm>, Box<Tm>, TermDebugContext),
    Bind(Binder, Seq<char>, Box<Tm>, Box<Tm>, TermDebugContext),
    Cons(Box<Tm>, Box<Tm>, TermDebugContext),
}

impl Term {
    /// The model of this term.
    pub open spec fn model(self) -> Tm
        decreases self,
    {
        match self {
            Term::Identifier(s, db) => Tm::Var(s@, db),
            Term::Application { function_term, parameter_term, debug_context } => Tm::App(
                Box::new(function_term.model()),
                Box::new(parameter_term.model()),
                debug_context,
            ),
            Term::Lambda { binding_identifier, binding_type, value_term, debug_context } => Tm::Bind(
                Binder::Lambda,
                binding_identifier@,
                Box::new(binding_type.model()),
                Box::new(value_term.model()),
                debug_context,
            ),
            Term::Forall { binding_identifier, binding_type, value_term, debug_context } => Tm::Bind(
                Binder::Forall,
                binding_identifier@,
                Box::new(binding_type.model()),
                Box::new(value_term.model()),
                debug_context,
            ),
            Term::FixedPoint { binding_identifier, binding_type, value_term, debug_context } =>
                Tm::Bind(
                Binder::FixedPoint,
                binding_identifier@,
                Box::new(binding_type.model()),
                Box::new(value_term.model()),
                debug_context,
            ),
            Term::Constructor { type_term, value_term, debug_context } => Tm::Cons(
                Box::new(type_term.model()),
                Box::new(value_term.model()),
                debug_context,
            ),
        }
    }
}

impl Clone for Term {
    fn clone(&self) -> (copy: Self)
        ensures
            copy@ == self@,
    {
        self.duplicate()
    }
}

impl View for Term {
    type V = Tm;

    open spec fn view(&self) -> Tm {
        self.model()
    }
}

impl Tm {
    /// The debug context at the root of a term.
    pub open spec fn ctx(self) -> TermDebugContext {
        match self {
            Tm::Var(_, db) => db,
            Tm::App(_, _, db) => db,
            Tm::Bind(_, _, _, _, db) => db,
            Tm::Cons(_, _, db) => db,
        }
    }

    /// The same term with the debug context at its root replaced.
    pub open spec fn with_ctx(self, c: TermDebugContext) -> Tm {
        match self {
            Tm::Var(s, _) => Tm::Var(s, c),
            Tm::App(f, p, _) => Tm::App(f, p, c),
            Tm::Bind(k, b, t, v, _) => Tm::Bind(k, b, t, v, c),
            Tm::Cons(t, v, _) => Tm::Cons(t, v, c),
        }
    }

    /// Whether `x` occurs in the term outside the scope of any binder named `x`.
    pub open spec fn free_in(self, x: Seq<char>) -> bool
        decreases self,
    {
        match self {
            Tm::Var(s, _) => s == x,
            Tm::App(f, p, _) => f.free_in(x) || p.free_in(x),
            Tm::Bind(_, b, t, v, _) => t.free_in(x) || (b != x && v.free_in(x)),
            Tm::Cons(t, v, _) => t.free_in(x) || v.free_in(x),
        }
    }

    /// The number of nodes of the term.
    pub open spec fn size(self) -> nat
        decreases self,
    {
        match self {
            Tm::Var(_, _) => 1,
            Tm::App(f, p, _) => 1 + f.size() + p.size(),
            Tm::Bind(_, _, t, v, _) => 1 + t.size() + v.size(),
            Tm::Cons(t, v, _) => 1 + t.size() + v.size(),
        }
    }

    /// The term with every debug context set to `Ignore`: two terms are
    /// considered equal when their erasures are identical.
    pub open spec fn erase(self) -> Tm
        decreases self,
    {
        match self {
            Tm::Var(s, _) => Tm::Var(s, TermDebugContext::Ignore),
            Tm::App(f, p, _) => Tm::App(
                Box::new(f.erase()),
                Box::new(p.erase()),
                TermDebugContext::Ignore,
            ),
            Tm::Bind(k, b, t, v, _) => Tm::Bind(
                k,
                b,
                Box::new(t.erase()),
                Box::new(v.erase()),
                TermDebugContext::Ignore,
            ),
            Tm::Cons(t, v, _) => Tm::Cons(
                Box::new(t.erase()),
                Box::new(v.erase()),
                TermDebugContext::Ignore,
            ),
        }
    }
}

/// The binding form of a term that is a binder (λ when it is not one).
pub open spec fn binder_of(t: Tm) -> Binder {
    match t {
        Tm::Bind(k, _, _, _, _) => k,
        _ => Binder::Lambda,
    }
}

/// Every term has at least one node.
pub proof fn lemma_size_positive(t: Tm)
    ensures
        t.size() >= 1,
{
}

impl Term {
    /// The debug context at the root of this term.
    pub fn debug_context(&self) -> (db: &TermDebugContext)
        ensures
            *db == self@.ctx(),
    {
        match self {
            Term::Identifier(_, db) => db,
            Term::Application { debug_context, .. } => debug_context,
            Term::Lambda { debug_context, .. } => debug_context,
            Term::Forall { debug_context, .. } => debug_context,
            Term::FixedPoint { debug_context, .. } => debug_context,
            Term::Constructor { debug_context, .. } => debug_context,
        }
    }

    /// A copy of this term, with the same model.
    pub fn duplicate(&self) -> (copy: Term)
        ensures
            copy@ == self@,
        decreases self,
    {
        match self {
            Term::Identifier(s, db) => Term::Identifier(s.clone(), db.duplicate()),
            Term::Application { function_term, parameter_term, debug_context } =>
                Term::Application {
                function_term: Box::new(function_term.duplicate()),
                parameter_term: Box::new(parameter_term.duplicate()),
                debug_context: debug_context.duplicate(),
            },
            Term::Lambda { binding_identifier, binding_type, value_term, debug_context } =>
                Term::Lambda {
                binding_identifier: binding_identifier.clone(),
                binding_type: Box::new(binding_type.duplicate()),
                value_term: Box::new(value_term.duplicate()),
                debug_context: debug_context.duplicate(),
            },
            Term::Forall { binding_identifier, binding_type, value_term, debug_context } =>
                Term::Forall {
                binding_identifier: binding_identifier.clone(),
                binding_type: Box::new(binding_type.duplicate()),
                value_term: Box::new(value_term.duplicate()),
                debug_context: debug_context.duplicate(),
            },
            Term::FixedPoint { binding_identifier, binding_type, value_term, debug_context } =>
                Term::FixedPoint {
                binding_identifier: binding_identifier.clone(),
                binding_type: Box::new(binding_type.duplicate()),
                value_term: Box::new(value_term.duplicate()),
                debug_context: debug_context.duplicate(),
            },
            Term::Constructor { type_term, value_term, debug_context } => Term::Constructor {
                type_term: Box::new(type_term.duplicate()),
                value_term: Box::new(value_term.duplicate()),
                debug_context: debug_context.duplicate(),
            },
        }
    }

    /// This term with the debug context at its root replaced by `new_debug_context`.
    pub fn with_new_debug_context(&self, new_debug_context: &TermDebugContext) -> (t: Term)
        ensures
            t@ == self@.with_ctx(*new_debug_context),
    {
        match self {
            Term::Identifier(s, _) => Term::Identifier(s.clone(), new_debug_context.duplicate()),
            Term::Application { function_term, parameter_term, .. } => Term::Application {
                function_term: Box::new(function_term.duplicate()),
                parameter_term: Box::new(parameter_term.duplicate()),
                debug_context: new_debug_context.duplicate(),
            },
            Term::Lambda { binding_identifier, binding_type, value_term, .. } => Term::Lambda {
                binding_identifier: binding_identifier.clone(),
                binding_type: Box::new(binding_type.duplicate()),
                value_term: Box::new(value_term.duplicate()),
                debug_context: new_debug_context.duplicate(),
            },
            Term::Forall { binding_identifier, binding_type, value_term, .. } => Term::Forall {
                binding_identifier: binding_identifier.clone(),
                binding_type: Box::new(binding_type.duplicate()),
                value_term: Box::new(value_term.duplicate()),
                debug_context: new_debug_context.duplicate(),
            },
            Term::FixedPoint { binding_identifier, binding_type, value_term, .. } =>
                Term::FixedPoint {
                binding_identifier: binding_identifier.clone(),
                binding_type: Box::new(binding_type.duplicate()),
                value_term: Box::new(value_term.duplicate()),
                debug_context: new_debug_context.duplicate(),
            },
            Term::Constructor { type_term, value_term, .. } => Term::Constructor {
                type_term: Box::new(type_term.duplicate()),
                value_term: Box::new(value_term.duplicate()),
                debug_context: new_debug_context.duplicate(),
            },
        }
    }

    /// A binder of the same form as `self` (λ, ∀ or 𝐘), with the given parts.
    pub fn rebuild_binder(
        &self,
        b: String,
        ty: Term,
        body: Term,
        db: TermDebugContext,
    ) -> (r: Term)
        requires
            self@ is Bind,
        ensures
            r@ == Tm::Bind(binder_of(self@), b@, Box::new(ty@), Box::new(body@), db),
    {
        match self {
            Term::Lambda { .. } => Term::Lambda {
                binding_identifier: b,
                binding_type: Box::new(ty),
                value_term: Box::new(body),
                debug_context: db,
            },
            Term::Forall { .. } => Term::Forall {
                binding_identifier: b,
                binding_type: Box::new(ty),
                value_term: Box::new(body),
                debug_context: db,
            },
            _ => Term::FixedPoint {
                binding_identifier: b,
                binding_type: Box::new(ty),
                value_term: Box::new(body),
                debug_context: db,
            },
        }
    }

    /// Checks if the given term contains an identifier in free form,
    /// that is, not shadowed by any variable defined within the term.
    pub fn contains(&self, identifier: &String) -> (found: bool)
        ensures
            found == self@.free_in(identifier@),
        decreases self,
    {
        match self {
            Term::Identifier(s, _) => *s == *identifier,
            Term::Application { function_term, parameter_term, .. } => function_term.contains(
                identifier,
            ) || parameter_term.contains(identifier),
            Term::Lambda { binding_identifier, binding_type, value_term, .. }
            | Term::Forall { binding_identifier, binding_type, value_term, .. }
            | Term::FixedPoint { binding_identifier, binding_type, value_term, .. } => {
                binding_type.contains(identifier) || (!(*binding_identifier == *identifier)
                    && value_term.contains(identifier))
            },
            Term::Constructor { type_term, value_term, .. } => type_term.contains(identifier)
                || value_term.contains(identifier),
        }
    }
}

impl Term {
    /// Whether two terms have identical syntactic trees, with every variable
    /// named exactly the same across them; debug contexts are not compared.
    pub fn same_term(&self, other: &Term) -> (b: bool)
        ensures
            b == (self@.erase() == other@.erase()),
        decreases self,
    {
        match (self, other) {
            (Term::Identifier(s, _), Term::Identifier(s2, _)) => *s == *s2,
            (
                Term::Application { function_term, parameter_term, .. },
                Term::Application { function_term: f2, parameter_term: p2, .. },
            ) => function_term.same_term(f2) && parameter_term.same_term(p2),
            (
                Term::Lambda { binding_identifier, binding_type, value_term, .. },
                Term::Lambda { binding_identifier: b2, binding_type: t2, value_term: v2, .. },
            ) => *binding_identifier == *b2 && binding_type.same_term(t2) && value_term.same_term(
                v2,
            ),
            (
                Term::Forall { binding_identifier, binding_type, value_term, .. },
                Term::Forall { binding_identifier: b2, binding_type: t2, value_term: v2, .. },
            ) => *binding_identifier == *b2 && binding_type.same_term(t2) && value_term.same_term(
                v2,
            ),
            (
                Term::FixedPoint { binding_identifier, binding_type, value_term, .. },
                Term::FixedPoint { binding_identifier: b2, binding_type: t2, value_term: v2, .. },
            ) => *binding_identifier == *b2 && binding_type.same_term(t2) && value_term.same_term(
                v2,
            ),
            (
                Term::Constructor { type_term, value_term, .. },
                Term::Constructor { type_term: t2, value_term: v2, .. },
            ) => type_term.same_term(t2) && value_term.same_term(v2),
            _ => false,
        }
    }
}

impl PartialEq for Term {
    /// Two terms are considered equal if and only if
    /// they contain identical syntactic trees, with
    /// every variable named exactly the same across them.
    fn eq(&self, other: &Self) -> (equal: bool) {
        self.same_term(other)
    }
}

impl Eq for Term {

}

impl vstd::std_specs::cmp::PartialEqSpecImpl for Term {
    open spec fn obeys_eq_spec() -> bool {
        true
    }

    open spec fn eq_spec(&self, other: &Term) -> bool {
        self@.erase() == other@.erase()
    }
}

} // verus!
