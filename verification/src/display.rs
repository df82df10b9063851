//! The notation of terms as text.
use vstd::prelude::*;
use vstd::string::*;
use crate::names::{is_literal, literal};
use crate::term::{Binder, Term, Tm};

verus! {

/// `s` in parentheses when `wrap` holds.
pub open spec fn parenthesized(s: Seq<char>, wrap: bool) -> Seq<char> {
    if wrap {
        seq!['('] + s + seq![')']
    } else {
        s
    }
}

/// Whether a term is a λ-, ∀- or 𝐘-binder.
pub open spec fn is_binder_term(t: Tm) -> bool {
    t is Bind
}

/// Whether a term is a λ- or ∀-binder.
pub open spec fn is_lambda_or_forall(t: Tm) -> bool {
    match t {
        Tm::Bind(Binder::Lambda, _, _, _, _) => true,
        Tm::Bind(Binder::Forall, _, _, _, _) => true,
        _ => false,
    }
}

/// Whether ∀x:A.B is written ⊥: B is x itself.
pub open spec fn is_falsity(b: Seq<char>, body: Tm) -> bool {
    match body {
        Tm::Var(s, _) => s == b,
        _ => false,
    }
}

/// The notation of a term: identifiers as themselves; applications as
/// `A B`, with A parenthesized when it is a binder and B when it is an
/// application or a binder; `λx:A.B`, `𝐘x:A.B` and `℺A.B`; ∀x:A.B as `A→B`
/// when B does not contain x (A parenthesized when a λ or ∀), as `⊥` when it
/// is ∀x:A.x, and as `∀x:A.B` otherwise.
pub open spec fn notation_of(t: Tm) -> Seq<char>
    decreases t,
{
    match t {
        Tm::Var(s, _) => s,
        Tm::App(f, p, _) => parenthesized(notation_of(*f), is_binder_term(*f)) + seq![' ']
            + parenthesized(notation_of(*p), *p is App || is_binder_term(*p)),
        Tm::Bind(Binder::Lambda, b, ty, body, _) => seq!['λ'] + b + seq![':'] + notation_of(*ty)
            + seq!['.'] + notation_of(*body),
        Tm::Bind(Binder::Forall, b, ty, body, _) => if !body.free_in(b) {
            parenthesized(notation_of(*ty), is_lambda_or_forall(*ty)) + seq!['→'] + notation_of(
                *body,
            )
        } else if is_falsity(b, *body) {
            seq!['⊥']
        } else {
            seq!['∀'] + b + seq![':'] + notation_of(*ty) + seq!['.'] + notation_of(*body)
        },
        Tm::Bind(Binder::FixedPoint, b, ty, body, _) => seq!['𝐘'] + b + seq![':'] + notation_of(
            *ty,
        ) + seq!['.'] + notation_of(*body),
        Tm::Cons(a, c, _) => seq!['℺'] + notation_of(*a) + seq!['.'] + notation_of(*c),
    }
}

fn push_parenthesized(out: &mut String, inner: &String, wrap: bool)
    ensures
        final(out)@ == old(out)@ + parenthesized(inner@, wrap),
{
    proof {
        reveal_strlit("(");
        reveal_strlit(")");
    }
    if wrap {
        out.append("(");
        out.append(inner.as_str());
        out.append(")");
    } else {
        out.append(inner.as_str());
    }
}

impl Term {
    fn is_falsity_exec(b: &String, body: &Term) -> (r: bool)
        ensures
            r == is_falsity(b@, body@),
    {
        match body {
            Term::Identifier(s, _) => *s == *b,
            _ => false,
        }
    }

    /// Formats the term in the notation of the Calculus of Constructions,
    /// using λ and ∀ plus two abbreviations: ∀x:A.B as A→B if B doesn't
    /// contain x, and ∀x:A.x as ⊥.
    pub fn notation(&self) -> (s: String)
        ensures
            s@ == notation_of(self@),
        decreases self,
    {
        proof {
            reveal_strlit(" ");
            reveal_strlit(":");
            reveal_strlit(".");
            reveal_strlit("λ");
            reveal_strlit("∀");
            reveal_strlit("→");
            reveal_strlit("⊥");
            reveal_strlit("𝐘");
            reveal_strlit("℺");
        }
        match self {
            Term::Identifier(s, _) => s.clone(),
            Term::Application { function_term, parameter_term, .. } => {
                let wrap_first = match &**function_term {
                    Term::Lambda { .. } | Term::Forall { .. } | Term::FixedPoint { .. } => true,
                    _ => false,
                };
                let wrap_second = match &**parameter_term {
                    Term::Application { .. } => true,
                    Term::Lambda { .. } | Term::Forall { .. } | Term::FixedPoint { .. } => true,
                    _ => false,
                };
                let mut out = String::new();
                push_parenthesized(&mut out, &function_term.notation(), wrap_first);
                out.append(" ");
                push_parenthesized(&mut out, &parameter_term.notation(), wrap_second);
                out
            },
            Term::Lambda { binding_identifier, binding_type, value_term, .. } => {
                let mut out = literal("λ");
                out.append(binding_identifier.as_str());
                out.append(":");
                out.append(binding_type.notation().as_str());
                out.append(".");
                out.append(value_term.notation().as_str());
                out
            },
            Term::Forall { binding_identifier, binding_type, value_term, .. } => {
                if !value_term.contains(binding_identifier) {
                    let wrap_first = match &**binding_type {
                        Term::Lambda { .. } | Term::Forall { .. } => true,
                        _ => false,
                    };
                    let mut out = String::new();
                    push_parenthesized(&mut out, &binding_type.notation(), wrap_first);
                    out.append("→");
                    out.append(value_term.notation().as_str());
                    out
                } else {
                    let falsity = Self::is_falsity_exec(binding_identifier, value_term);
                    if falsity {
                        literal("⊥")
                    } else {
                        let mut out = literal("∀");
                        out.append(binding_identifier.as_str());
                        out.append(":");
                        out.append(binding_type.notation().as_str());
                        out.append(".");
                        out.append(value_term.notation().as_str());
                        out
                    }
                }
            },
            Term::FixedPoint { binding_identifier, binding_type, value_term, .. } => {
                let mut out = literal("𝐘");
                out.append(binding_identifier.as_str());
                out.append(":");
                out.append(binding_type.notation().as_str());
                out.append(".");
                out.append(value_term.notation().as_str());
                out
            },
            Term::Constructor { type_term, value_term, .. } => {
                let mut out = literal("℺");
                out.append(type_term.notation().as_str());
                out.append(".");
                out.append(value_term.notation().as_str());
                out
            },
        }
    }
}

} // verus!
