//! Errors reported by the kernel.
use vstd::prelude::*;
use crate::term::{Term, TermDebugContext, Tm};

verus! {

/// A type representing an error encountered by the kernel while executing some input.
#[derive(Debug)]
pub enum KernelError {
    /// A term contains some identifier that hasn't been defined before.
    UndefinedIdentifier { identifier: String, identifier_context: TermDebugContext },
    /// A term has been applied on some argument of a different type than that it accepts.
    NonmatchingArgument {
        expected_type: Term,
        observed_type: Term,
        function_context: TermDebugContext,
        parameter_context: TermDebugContext,
    },
    /// A term that accepts no arguments has been applied on some other term.
    InvalidApplication {
        nonfunction_type: Term,
        nonfunction_context: TermDebugContext,
        parameter_context: TermDebugContext,
    },
    /// A term has been defined, but the stated type doesn't match its actual type.
    NonmatchingDefinition {
        expected_type: Term,
        observed_type: Term,
        signature_context: TermDebugContext,
        definition_context: TermDebugContext,
    },
    /// A term which type should be Set, Prop or Type has a different type.
    InvalidType { incorrect_term: Term, incorrect_type: Term, incorrect_context: TermDebugContext },
    /// A term which type should be Set has a different type.
    InvalidTypeSet {},
    /// An inductive instance's type doesn't match its specified type.
    InvalidInstance {},
    /// Either the type definition or one of its parameters don't evaluate
    /// to a term of the form A1→A2→A3→...→B.
    MisshapenInductiveDefinition {
        unexpected_subterm: Term,
        subterm_context: TermDebugContext,
        full_term_context: TermDebugContext,
    },
    /// An identifier is at a negative position in the type definition,
    /// which is not allowed (e.g. (x→B)→C).
    NegativeInductiveDefinition {
        negative_subterm: Term,
        subterm_context: TermDebugContext,
        full_term_context: TermDebugContext,
    },
    /// Either the type definition or a recursive function
    /// don't evaluate to a term of the form A1→A2→A3→...→B
    /// or λx1:A1.λx2:A2.λx3:A3. ... B.
    MisshapenRecursiveDefinition {
        unexpected_subterm: Term,
        subterm_context: TermDebugContext,
        full_term_context: TermDebugContext,
    },
    /// The function doesn't have any single parameter
    /// that is clearly decreasing for every recursive invocation.
    NonprimitiveRecursiveFunction { full_term_context: TermDebugContext },
    /// The type of a recursive definition includes
    /// the definition itself.
    SelfReferencingRecursiveType { full_term_context: TermDebugContext },
    /// Type inference nested more than `u64::MAX` levels deep.
    InferenceDepthExceeded {},
}

/// The model of a kernel error: its terms by their models and its
/// identifiers by their characters.
pub enum Fault {
    UndefinedIdentifier(Seq<char>, TermDebugContext),
    NonmatchingArgument(Tm, Tm, TermDebugContext, TermDebugContext),
    InvalidApplication(Tm, TermDebugContext, TermDebugContext),
    NonmatchingDefinition(Tm, Tm, TermDebugContext, TermDebugContext),
    InvalidType(Tm, Tm, TermDebugContext),
    InvalidTypeSet,
    InvalidInstance,
    MisshapenInductiveDefinition(Tm, TermDebugContext, TermDebugContext),
    NegativeInductiveDefinition(Tm, TermDebugContext, TermDebugContext),
    MisshapenRecursiveDefinition(Tm, TermDebugContext, TermDebugContext),
    NonprimitiveRecursiveFunction(TermDebugContext),
    SelfReferencingRecursiveType(TermDebugContext),
    InferenceDepthExceeded,
}

impl View for KernelError {
    type V = Fault;

    open spec fn view(&self) -> Fault {
        match self {
            KernelError::UndefinedIdentifier { identifier, identifier_context } =>
                Fault::UndefinedIdentifier(identifier@, *identifier_context),
            KernelError::NonmatchingArgument {
                expected_type,
                observed_type,
                function_context,
                parameter_context,
            } => Fault::NonmatchingArgument(
                expected_type@,
                observed_type@,
                *function_context,
                *parameter_context,
            ),
            KernelError::InvalidApplication {
                nonfunction_type,
                nonfunction_context,
                parameter_context,
            } => Fault::InvalidApplication(
                nonfunction_type@,
                *nonfunction_context,
                *parameter_context,
            ),
            KernelError::NonmatchingDefinition {
                expected_type,
                observed_type,
                signature_context,
                definition_context,
            } => Fault::NonmatchingDefinition(
                expected_type@,
                observed_type@,
                *signature_context,
                *definition_context,
            ),
            KernelError::InvalidType { incorrect_term, incorrect_type, incorrect_context } =>
                Fault::InvalidType(incorrect_term@, incorrect_type@, *incorrect_context),
            KernelError::InvalidTypeSet {  } => Fault::InvalidTypeSet,
            KernelError::InvalidInstance {  } => Fault::InvalidInstance,
            KernelError::MisshapenInductiveDefinition {
                unexpected_subterm,
                subterm_context,
                full_term_context,
            } => Fault::MisshapenInductiveDefinition(
                unexpected_subterm@,
                *subterm_context,
                *full_term_context,
            ),
            KernelError::NegativeInductiveDefinition {
                negative_subterm,
                subterm_context,
                full_term_context,
            } => Fault::NegativeInductiveDefinition(
                negative_subterm@,
                *subterm_context,
                *full_term_context,
            ),
            KernelError::MisshapenRecursiveDefinition {
                unexpected_subterm,
                subterm_context,
                full_term_context,
            } => Fault::MisshapenRecursiveDefinition(
                unexpected_subterm@,
                *subterm_context,
                *full_term_context,
            ),
            KernelError::NonprimitiveRecursiveFunction { full_term_context } =>
                Fault::NonprimitiveRecursiveFunction(*full_term_context),
            KernelError::SelfReferencingRecursiveType { full_term_context } =>
                Fault::SelfReferencingRecursiveType(*full_term_context),
            KernelError::InferenceDepthExceeded {  } => Fault::InferenceDepthExceeded,
        }
    }
}

/// The model of the result of an operation that gives a term.
pub open spec fn outcome(r: Result<Term, KernelError>) -> Result<Tm, Fault> {
    match r {
        Ok(t) => Ok(t@),
        Err(e) => Err(e@),
    }
}

/// The model of the error of a check, if it failed.
pub open spec fn failure(r: Result<(), KernelError>) -> Option<Fault> {
    match r {
        Ok(_) => None,
        Err(e) => Some(e@),
    }
}

} // verus!
