//! The state of definitions that terms inhabit, and δ-reduction.
use vstd::prelude::*;
use crate::error::{failure, Fault, KernelError};
use crate::rules::typing;
use crate::reduce::{alpha_from, normalize_spec, settle};
use crate::subst::subst;
use crate::term::{Term, Tm};

verus! {

/// Context that terms inhabit: a list of definitions `name = value : type`,
/// in the order they were first made, each name at most once.
pub struct State {
    terms: Vec<(String, Term, Term)>,
}

/// The model of a definition: its name, its type and its value.
pub type Definition = (Seq<char>, Tm, Tm);

/// Whether no name is defined twice.
pub open spec fn names_distinct(defs: Seq<Definition>) -> bool {
    forall|i: int, j: int|
        0 <= i < defs.len() && 0 <= j < defs.len() && i != j ==> #[trigger] defs[i].0
            != #[trigger] defs[j].0
}

/// Whether `name` is defined.
pub open spec fn is_defined(defs: Seq<Definition>, name: Seq<char>) -> bool {
    exists|i: int| 0 <= i < defs.len() && #[trigger] defs[i].0 == name
}

/// The type and value defined for `name`, if any.
pub open spec fn definition_of(defs: Seq<Definition>, name: Seq<char>) -> Option<(Tm, Tm)> {
    if is_defined(defs, name) {
        let i = choose|i: int| 0 <= i < defs.len() && #[trigger] defs[i].0 == name;
        Some((defs[i].1, defs[i].2))
    } else {
        None
    }
}

/// δ-reduction by the first `i` definitions: each one's value is substituted for
/// its name, in order.
pub open spec fn delta_upto(t: Tm, defs: Seq<Definition>, i: nat) -> Tm
    decreases i,
{
    if i == 0 || i > defs.len() {
        t
    } else {
        let d = defs[i - 1];
        subst(delta_upto(t, defs, (i - 1) as nat), d.0, d.2)
    }
}

/// One pass of δ-reduction: the value of every definition substituted for
/// its name, in the order of the definitions.
pub open spec fn delta_pass(t: Tm, defs: Seq<Definition>) -> Tm {
    delta_upto(t, defs, defs.len())
}

/// Whether a name defined in `defs` occurs free in `t`.
pub open spec fn mentions_definitions(t: Tm, defs: Seq<Definition>) -> bool {
    exists|i: int| 0 <= i < defs.len() && #[trigger] t.free_in(defs[i].0)
}

/// δ-reduction passes repeated while a defined name occurs free, at most
/// `rounds` of them.
pub open spec fn delta_rounds(t: Tm, defs: Seq<Definition>, rounds: nat) -> Tm
    decreases rounds,
{
    if rounds == 0 || !mentions_definitions(t, defs) {
        t
    } else {
        delta_rounds(delta_pass(t, defs), defs, (rounds - 1) as nat)
    }
}

/// δ-reduction to the greatest extent possible: passes are repeated until no
/// defined name occurs free, with at most one pass more than there are
/// definitions (a name defined through a cycle of redefinitions never
/// disappears; the passes stop there).
pub open spec fn delta(t: Tm, defs: Seq<Definition>) -> Tm {
    delta_rounds(t, defs, defs.len() + 1)
}

impl State {
    /// The definitions of the state, in order.
    pub closed spec fn entries(self) -> Seq<Definition> {
        self.terms@.map_values(|e: (String, Term, Term)| (e.0@, e.1@, e.2@))
    }

    #[verifier::type_invariant]
    spec fn wf(self) -> bool {
        names_distinct(self.entries())
    }

    /// Every state defines each name at most once.
    pub fn names_are_distinct(&self)
        ensures
            names_distinct(self.entries()),
    {
        proof {
            use_type_invariant(self);
        }
    }

    /// Creates a new context containing no terms.
    pub fn new() -> (s: Self)
        ensures
            s.entries() == Seq::<Definition>::empty(),
    {
        let s = State { terms: Vec::new() };
        s
    }

    /// The number of definitions.
    pub fn len(&self) -> (n: usize)
        ensures
            n == self.entries().len(),
    {
        self.terms.len()
    }

    /// The name of the `i`-th definition.
    pub fn name_at(&self, i: usize) -> (s: &String)
        requires
            i < self.entries().len(),
        ensures
            s@ == self.entries()[i as int].0,
    {
        &self.terms[i].0
    }

    /// The type of the `i`-th definition.
    pub fn type_at(&self, i: usize) -> (t: &Term)
        requires
            i < self.entries().len(),
        ensures
            t@ == self.entries()[i as int].1,
    {
        &self.terms[i].1
    }

    /// The value of the `i`-th definition.
    pub fn value_at(&self, i: usize) -> (t: &Term)
        requires
            i < self.entries().len(),
        ensures
            t@ == self.entries()[i as int].2,
    {
        &self.terms[i].2
    }

    /// The position of the definition of `name`, if it is defined.
    pub fn find(&self, name: &String) -> (r: Option<usize>)
        ensures
            match r {
                Some(i) => i < self.entries().len() && self.entries()[i as int].0 == name@,
                None => !is_defined(self.entries(), name@),
            },
    {
        let n = self.terms.len();
        let mut i: usize = 0;
        while i < n
            invariant
                n == self.terms.len(),
                n == self.entries().len(),
                i <= n,
                forall|j: int| 0 <= j < i ==> self.entries()[j].0 != name@,
            decreases n - i,
        {
            if self.terms[i].0 == *name {
                return Some(i);
            }
            i = i + 1;
        }
        None
    }

    /// The definition found at position `i` is the one `definition_of` gives.
    pub proof fn lemma_definition_at(defs: Seq<Definition>, i: int)
        requires
            names_distinct(defs),
            0 <= i < defs.len(),
        ensures
            definition_of(defs, defs[i].0) == Some((defs[i].1, defs[i].2)),
    {
    }

    /// Adds the definition `identifier = value_term : type_term`, replacing an
    /// earlier definition of the same name in place.
    pub(crate) fn define(&mut self, identifier: &String, type_term: Term, value_term: Term)
        ensures
            final(self).entries() == (match old(self).find_spec(identifier@) {
                Some(i) => old(self).entries().update(i, (identifier@, type_term@, value_term@)),
                None => old(self).entries().push((identifier@, type_term@, value_term@)),
            }),
    {
        proof {
            use_type_invariant(&*self);
        }
        let found = self.find(identifier);
        match found {
            Some(i) => {
                proof {
                    self.lemma_find_spec(i as int);
                }
                let ghost before = self.entries();
                let mut terms: Vec<(String, Term, Term)> = Vec::new();
                std::mem::swap(&mut terms, &mut self.terms);
                terms.set(i, (identifier.clone(), type_term, value_term));
                proof {
                    let defs = terms@.map_values(|e: (String, Term, Term)| (e.0@, e.1@, e.2@));
                    assert(defs =~= before.update(i as int, (identifier@, type_term@, value_term@)));
                }
                self.terms = terms;
            },
            None => {
                let ghost before = self.entries();
                let mut terms: Vec<(String, Term, Term)> = Vec::new();
                std::mem::swap(&mut terms, &mut self.terms);
                terms.push((identifier.clone(), type_term, value_term));
                proof {
                    let defs = terms@.map_values(|e: (String, Term, Term)| (e.0@, e.1@, e.2@));
                    assert(defs =~= before.push((identifier@, type_term@, value_term@)));
                }
                self.terms = terms;
            },
        }
    }

    /// The position of the definition of `name`, if any.
    pub open spec fn find_spec(self, name: Seq<char>) -> Option<int> {
        if is_defined(self.entries(), name) {
            Some(choose|i: int| 0 <= i < self.entries().len() && #[trigger] self.entries()[i].0 == name)
        } else {
            None
        }
    }

    proof fn lemma_find_spec(&self, i: int)
        requires
            names_distinct(self.entries()),
            0 <= i < self.entries().len(),
        ensures
            self.find_spec(self.entries()[i].0) == Some(i),
    {
    }
}

impl Term {
    /// Whether a name defined in the state occurs free in the term.
    fn mentions_definition(&self, state: &State) -> (b: bool)
        ensures
            b == mentions_definitions(self@, state.entries()),
    {
        let n = state.len();
        let mut i: usize = 0;
        while i < n
            invariant
                n == state.entries().len(),
                i <= n,
                forall|j: int| 0 <= j < i ==> !(#[trigger] self@.free_in(state.entries()[j].0)),
            decreases n - i,
        {
            if self.contains(state.name_at(i)) {
                return true;
            }
            i = i + 1;
        }
        false
    }

    /// One δ-reduction pass: substitutes the value of each definition of the
    /// state for its name, in the order of the definitions.
    fn delta_pass(&mut self, state: &State)
        ensures
            final(self)@ == delta_pass(old(self)@, state.entries()),
    {
        let ghost start = self@;
        let n = state.len();
        let mut i: usize = 0;
        while i < n
            invariant
                n == state.entries().len(),
                i <= n,
                self@ == delta_upto(start, state.entries(), i as nat),
            decreases n - i,
        {
            self.replace(state.name_at(i), state.value_at(i));
            i = i + 1;
        }
    }

    /// Applies δ-reduction to the greatest extent possible: passes that
    /// substitute the value of each definition of the state for its name are
    /// repeated until no defined name occurs free (at most one pass more
    /// than there are definitions). Preserves variable names.
    ///
    /// Please note that no type checking is performed.
    pub fn delta_normalize(&mut self, state: &State)
        ensures
            final(self)@ == delta(old(self)@, state.entries()),
    {
        let ghost defs = state.entries();
        let n = state.len();
        let mut done: usize = 0;
        loop
            invariant
                n == defs.len(),
                defs == state.entries(),
                done <= n,
                delta(old(self)@, defs) == delta_rounds(self@, defs, (n + 1 - done) as nat),
            decreases n - done,
        {
            if !self.mentions_definition(state) {
                return;
            }
            let ghost before = self@;
            self.delta_pass(state);
            assert(delta_rounds(before, defs, (n + 1 - done) as nat) == delta_rounds(
                self@,
                defs,
                (n - done) as nat,
            ));
            if done == n {
                assert(delta_rounds(self@, defs, 0) == self@);
                return;
            }
            done = done + 1;
        }
    }

    /// Applies `.delta_normalize()`, followed by alternating
    /// `.normalize()` and `.fixed_point_reduce(false)`.
    ///
    /// Please note that no type checking is performed.
    pub fn homonymous_normalize(&mut self, state: &State)
        ensures
            final(self)@ == settle(delta(old(self)@, state.entries())),
    {
        self.delta_normalize(state);
        self.settle();
    }

    /// Applies `.delta_normalize()`, followed by alternating
    /// `.normalize()` and `.fixed_point_reduce(false)`, and finally
    /// `.alpha_normalize()`.
    ///
    /// Please note that no type checking is performed.
    pub fn full_normalize(&mut self, state: &State)
        ensures
            final(self)@ == alpha_from(settle(delta(old(self)@, state.entries())), 0),
    {
        self.delta_normalize(state);
        self.settle();
        self.alpha_normalize();
    }
}

/// The full normal form of a term in a state: δ-reduction, then the
/// normalization loop, then α-normalization.
pub open spec fn full_normal_form(t: Tm, defs: Seq<Definition>) -> Tm {
    alpha_from(settle(delta(t, defs)), 0)
}

/// The definitions after defining `name` as `value : ty`: an earlier
/// definition of `name` is replaced in place, otherwise the new one is added last.
pub open spec fn redefined(defs: Seq<Definition>, name: Seq<char>, ty: Tm, value: Tm) -> Seq<
    Definition,
> {
    if is_defined(defs, name) {
        let i = choose|i: int| 0 <= i < defs.len() && #[trigger] defs[i].0 == name;
        defs.update(i, (name, ty, value))
    } else {
        defs.push((name, ty, value))
    }
}

/// What defining `name` as `value : ty` in the definitions `defs` gives:
/// the definitions after it, or the error. `ty` (δ-reduced) must have a
/// type, `value` (δ-reduced) must have a type, and that type must equal `ty`
/// once both are fully normalized.
pub open spec fn definition_result(defs: Seq<Definition>, name: Seq<char>, ty: Tm, value: Tm) -> Result<
    Seq<Definition>,
    Fault,
> {
    let ty_d = delta(ty, defs);
    match typing(ty_d, defs, Seq::empty(), u64::MAX as nat) {
        Err(e) => Err(e),
        Ok(_) => match typing(delta(value, defs), defs, Seq::empty(), u64::MAX as nat) {
            Err(e) => Err(e),
            Ok(actual) => {
                let observed = full_normal_form(actual, defs);
                let expected = full_normal_form(normalize_spec(ty_d), defs);
                if expected.erase() != observed.erase() {
                    Err(Fault::NonmatchingDefinition(expected, observed, ty.ctx(), value.ctx()))
                } else {
                    Ok(redefined(defs, name, ty, value))
                }
            },
        },
    }
}

impl State {
    /// Attempts to define a new variable in the given state.
    ///
    /// This is equivalent to `let x: A = B;`.
    /// Will return an error if either term is invalid
    /// or the type of `B` doesn't match `A`.
    pub fn try_define(&mut self, identifier: &String, type_term: Term, value_term: Term) -> (r:
        Result<(), KernelError>)
        ensures
            failure(r) == match definition_result(
                old(self).entries(),
                identifier@,
                type_term@,
                value_term@,
            ) {
                Ok(_) => None,
                Err(e) => Some(e),
            },
            final(self).entries() == match definition_result(
                old(self).entries(),
                identifier@,
                type_term@,
                value_term@,
            ) {
                Ok(defs) => defs,
                Err(_) => old(self).entries(),
            },
    {
        let mut type_term_normalized = type_term.duplicate();
        type_term_normalized.delta_normalize(self);
        type_term_normalized.infer_type(self)?;
        type_term_normalized.normalize();
        let mut value_term_normalized = value_term.duplicate();
        value_term_normalized.delta_normalize(self);
        let mut actual_type = value_term_normalized.infer_type(self)?;
        value_term_normalized.normalize();
        actual_type.full_normalize(self);
        let mut expected_type = type_term_normalized.duplicate();
        expected_type.full_normalize(self);
        if !expected_type.same_term(&actual_type) {
            return Err(
                KernelError::NonmatchingDefinition {
                    expected_type: expected_type,
                    observed_type: actual_type,
                    signature_context: type_term.debug_context().duplicate(),
                    definition_context: value_term.debug_context().duplicate(),
                },
            );
        }
        proof {
            use_type_invariant(&*self);
        }
        self.define(identifier, type_term, value_term);
        Ok(())
    }
}

} // verus!
