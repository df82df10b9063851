use lib::term::{Term, TermDebugContext};

fn id(s: &str) -> Term {
    Term::Identifier(s.to_string(), TermDebugContext::Ignore)
}

fn id_at(s: &str, span: (usize, usize)) -> Term {
    Term::Identifier(s.to_string(), TermDebugContext::CodeSpan(span))
}

fn app(f: Term, p: Term) -> Term {
    Term::Application {
        function_term: Box::new(f),
        parameter_term: Box::new(p),
        debug_context: TermDebugContext::Ignore,
    }
}

fn lam(x: &str, a: Term, b: Term) -> Term {
    Term::Lambda {
        binding_identifier: x.to_string(),
        binding_type: Box::new(a),
        value_term: Box::new(b),
        debug_context: TermDebugContext::Ignore,
    }
}

fn all(x: &str, a: Term, b: Term) -> Term {
    Term::Forall {
        binding_identifier: x.to_string(),
        binding_type: Box::new(a),
        value_term: Box::new(b),
        debug_context: TermDebugContext::Ignore,
    }
}

fn fix(x: &str, a: Term, b: Term) -> Term {
    Term::FixedPoint {
        binding_identifier: x.to_string(),
        binding_type: Box::new(a),
        value_term: Box::new(b),
        debug_context: TermDebugContext::Ignore,
    }
}

fn cons(a: Term, b: Term) -> Term {
    Term::Constructor {
        type_term: Box::new(a),
        value_term: Box::new(b),
        debug_context: TermDebugContext::Ignore,
    }
}

#[test]
fn span_of_each_context() {
    assert_eq!(TermDebugContext::Ignore.get_span(), (0, 0));
    assert_eq!(TermDebugContext::CodeSpan((3, 7)).get_span(), (3, 7));
    let nested = TermDebugContext::TypeOf(Box::new(TermDebugContext::TypeOf(Box::new(
        TermDebugContext::CodeSpan((1, 2)),
    ))));
    assert_eq!(nested.get_span(), (1, 2));
    let lost = TermDebugContext::TypeOf(Box::new(TermDebugContext::Ignore));
    assert_eq!(lost.get_span(), (0, 0));
}

#[test]
fn equality_ignores_debug_contexts() {
    assert!(id("x") == id_at("x", (4, 5)));
    assert!(id("x") != id("y"));
    let a = lam("x", id_at("A", (1, 2)), app(id("x"), id("y")));
    let b = lam("x", id("A"), app(id_at("x", (9, 9)), id("y")));
    assert!(a == b);
    // no renaming is allowed: equality is syntactic
    assert!(lam("x", id("A"), id("x")) != lam("y", id("A"), id("y")));
    // binders of different kinds differ
    assert!(lam("x", id("A"), id("x")) != all("x", id("A"), id("x")));
    assert!(cons(id("A"), id("B")) == cons(id("A"), id("B")));
    assert!(cons(id("A"), id("B")) != cons(id("B"), id("A")));
}

#[test]
fn clone_keeps_the_term() {
    let t = fix("f", id("A"), lam("x", id("B"), app(id("f"), id("x"))));
    let c = t.clone();
    assert!(c == t);
    assert_eq!(c.notation(), t.notation());
}

#[test]
fn free_occurrences() {
    let x = "x".to_string();
    // x a x contains x
    assert!(app(app(id("x"), id("a")), id("x")).contains(&x));
    // λx:A.x a x does not
    let bound = lam("x", id("A"), app(app(id("x"), id("a")), id("x")));
    assert!(!bound.contains(&x));
    // (λx:A.x a x) x does, through its last occurrence
    assert!(app(bound.clone(), id("x")).contains(&x));
    // the same goes for ∀ and 𝐘
    assert!(!all("x", id("A"), id("x")).contains(&x));
    assert!(!fix("x", id("A"), id("x")).contains(&x));
    // a binding type is outside the binder's scope
    assert!(lam("x", id("x"), id("y")).contains(&x));
    assert!(cons(id("A"), id("x")).contains(&x));
    assert!(!cons(id("A"), id("B")).contains(&x));
    assert!(!id("y").contains(&x));
}

#[test]
fn replace_respects_shadowing() {
    // replacing x by V in (λx:A.x B) x gives (λx:A.x B) V
    let mut t = app(lam("x", id("A"), app(id("x"), id("B"))), id("x"));
    t.replace(&"x".to_string(), &id("V"));
    assert!(t == app(lam("x", id("A"), app(id("x"), id("B"))), id("V")));
    let mut t = app(all("x", id("A"), app(id("x"), id("B"))), id("x"));
    t.replace(&"x".to_string(), &id("V"));
    assert!(t == app(all("x", id("A"), app(id("x"), id("B"))), id("V")));
    // the binding type is replaced in
    let mut t = lam("x", id("x"), id("x"));
    t.replace(&"x".to_string(), &id("V"));
    assert!(t == lam("x", id("V"), id("x")));
}

#[test]
fn replace_renames_captured_binders() {
    // replacing x by y in λy:A.x y gives λy0:A.y y0
    let mut t = lam("y", id("A"), app(id("x"), id("y")));
    t.replace(&"x".to_string(), &id("y"));
    assert!(t == lam("y0", id("A"), app(id("y"), id("y0"))));
    assert_eq!(t.notation(), "λy0:A.y y0");
    // the same in ∀y:A.x y
    let mut t = all("y", id("A"), app(id("x"), id("y")));
    t.replace(&"x".to_string(), &id("y"));
    assert!(t == all("y0", id("A"), app(id("y"), id("y0"))));
}

#[test]
fn replace_skips_names_free_in_the_body() {
    // in λx:A.y x x0, x is not renamed to x0
    let mut t = lam("x", id("A"), app(app(id("y"), id("x")), id("x0")));
    t.replace(&"y".to_string(), &id("x"));
    assert!(t == lam("x1", id("A"), app(app(id("x"), id("x1")), id("x0"))));
}

#[test]
fn replace_skips_names_free_in_the_value() {
    // replacing y by x x0 in λx:A.y x: x is not renamed to x0
    let mut t = lam("x", id("A"), app(id("y"), id("x")));
    t.replace(&"y".to_string(), &app(id("x"), id("x0")));
    assert!(t == lam("x1", id("A"), app(app(id("x"), id("x0")), id("x1"))));
    assert_eq!(t.notation(), "λx1:A.x x0 x1");
}

#[test]
fn replace_skips_the_replaced_name() {
    // to replace x0 with x in λx:A.x0, x can't be renamed to x0
    let mut t = lam("x", id("A"), id("x0"));
    t.replace(&"x0".to_string(), &id("x"));
    assert!(t == lam("x1", id("A"), id("x")));
}

#[test]
fn replace_keeps_context_of_ignored_values() {
    let mut t = id_at("x", (5, 6));
    t.replace(&"x".to_string(), &id("y"));
    assert!(t == id("y"));
    assert_eq!(t.debug_context().get_span(), (5, 6));
    let mut t = id_at("x", (5, 6));
    t.replace(&"x".to_string(), &id_at("y", (9, 12)));
    assert!(t == id("y"));
    assert_eq!(t.debug_context().get_span(), (9, 12));
}

#[test]
fn replace_leaves_other_terms() {
    let t0 = cons(app(id("a"), id("b")), lam("z", id("C"), id("z")));
    let mut t = t0.clone();
    t.replace(&"x".to_string(), &id("V"));
    assert!(t == t0);
}

#[test]
fn beta_reduction() {
    let mut t = app(lam("x", id("A"), app(id("x"), id("x"))), id("y"));
    assert!(t.beta_reduce());
    assert!(t == app(id("y"), id("y")));
    // nothing to reduce
    let mut t = app(id("x"), id("y"));
    assert!(!t.beta_reduce());
    assert!(t == app(id("x"), id("y")));
    // a redex inside a term
    let mut t = app(id("f"), app(lam("x", id("A"), id("x")), id("y")));
    assert!(t.beta_reduce());
    assert!(t == app(id("f"), id("y")));
    // one step only
    let mut t = app(
        lam("x", id("A"), id("x")),
        app(lam("z", id("B"), id("z")), id("w")),
    );
    assert!(t.beta_reduce());
    assert!(t == app(lam("z", id("B"), id("z")), id("w")));
}

#[test]
fn beta_reduction_substitutes_without_capture() {
    // (λx:A.λy:B.x) y reduces to λy0:B.y
    let mut t = app(lam("x", id("A"), lam("y", id("B"), id("x"))), id("y"));
    assert!(t.beta_reduce());
    assert!(t == lam("y0", id("B"), id("y")));
}

#[test]
fn beta_reduction_takes_the_application_context() {
    let mut t = Term::Application {
        function_term: Box::new(lam("x", id("A"), id("x"))),
        parameter_term: Box::new(id("y")),
        debug_context: TermDebugContext::CodeSpan((2, 8)),
    };
    assert!(t.beta_reduce());
    assert!(t == id("y"));
    assert_eq!(t.debug_context().get_span(), (2, 8));
}

#[test]
fn eta_reduction() {
    let mut t = lam("x", id("A"), app(id("f"), id("x")));
    assert!(t.eta_reduce());
    assert!(t == id("f"));
    // x occurs in the function: no reduction
    let mut t = lam("x", id("A"), app(id("x"), id("x")));
    assert!(!t.eta_reduce());
    assert!(t == lam("x", id("A"), app(id("x"), id("x"))));
    // the argument is not the bound variable
    let mut t = lam("x", id("A"), app(id("f"), id("y")));
    assert!(!t.eta_reduce());
    // a redex inside an application
    let mut t = app(id("g"), lam("x", id("A"), app(id("f"), id("x"))));
    assert!(t.eta_reduce());
    assert!(t == app(id("g"), id("f")));
}

#[test]
fn normalization() {
    // (λx:A.λy:B.x) a b normalizes to a
    let mut t = app(app(lam("x", id("A"), lam("y", id("B"), id("x"))), id("a")), id("b"));
    t.normalize();
    assert!(t == id("a"));
    // λx:A.(λy:B.f y) x normalizes to f
    let mut t = lam("x", id("A"), app(lam("y", id("B"), app(id("f"), id("y"))), id("x")));
    t.normalize();
    assert!(t == id("f"));
    // a normal term stays
    let mut t = lam("x", id("A"), app(id("x"), id("x")));
    t.normalize();
    assert!(t == lam("x", id("A"), app(id("x"), id("x"))));
}

#[test]
fn alpha_normalization() {
    let mut t = lam("x", id("A"), lam("y", id("B"), app(id("x"), id("y"))));
    t.alpha_normalize();
    assert!(t == lam("#0", id("A"), lam("#1", id("B"), app(id("#0"), id("#1")))));
    // sibling binders reuse numbers; free names stay
    let mut t = app(lam("x", id("A"), id("x")), all("y", id("z"), id("y")));
    t.alpha_normalize();
    assert!(t == app(lam("#0", id("A"), id("#0")), all("#0", id("z"), id("#0"))));
    // binding types are numbered from the outer level
    let mut t = lam("x", lam("y", id("A"), id("y")), id("x"));
    t.alpha_normalize();
    assert!(t == lam("#0", lam("#0", id("A"), id("#0")), id("#0")));
}

#[test]
fn alpha_normalization_identifies_renamings() {
    let mut a = lam("x", id("A"), all("y", id("x"), app(id("y"), id("x"))));
    let mut b = lam("u", id("A"), all("v", id("u"), app(id("v"), id("u"))));
    assert!(a != b);
    a.alpha_normalize();
    b.alpha_normalize();
    assert!(a == b);
}

#[test]
fn fixed_point_reduction() {
    let f = fix("f", id("A"), lam("x", id("B"), app(id("f"), id("x"))));
    let mut t = f.clone();
    assert!(t.fixed_point_reduce(false));
    assert!(t == app(lam("f", id("A"), lam("x", id("B"), app(id("f"), id("x")))), f.clone()));
    assert_eq!(t.notation(), "(λf:A.λx:B.f x) (𝐘f:A.λx:B.f x)");
    // a body that is not a λ is only expanded when asked for
    let s = fix("s", id("Set"), all("T", id("Set"), id("T")));
    let mut t = s.clone();
    assert!(!t.fixed_point_reduce(false));
    assert!(t == s);
    assert!(t.fixed_point_reduce(true));
    assert!(t == app(lam("s", id("Set"), all("T", id("Set"), id("T"))), s.clone()));
    // nothing to expand
    let mut t = app(id("a"), id("b"));
    assert!(!t.fixed_point_reduce(true));
}

#[test]
fn fixed_point_reduction_looks_at_the_body_first() {
    // the body of a binder is searched before its type
    let inner = fix("g", id("C"), lam("y", id("D"), id("y")));
    let mut t = lam("x", inner.clone(), inner.clone());
    assert!(t.fixed_point_reduce(false));
    let expanded = app(lam("g", id("C"), lam("y", id("D"), id("y"))), inner.clone());
    assert!(t == lam("x", inner.clone(), expanded));
}

#[test]
fn notation_of_terms() {
    assert_eq!(id("x").notation(), "x");
    assert_eq!(app(app(id("a"), id("b")), id("c")).notation(), "a b c");
    assert_eq!(app(id("a"), app(id("b"), id("c"))).notation(), "a (b c)");
    assert_eq!(app(lam("x", id("A"), id("x")), id("y")).notation(), "(λx:A.x) y");
    assert_eq!(app(id("f"), lam("x", id("A"), id("x"))).notation(), "f (λx:A.x)");
    assert_eq!(all("x", id("A"), id("B")).notation(), "A→B");
    assert_eq!(all("x", all("y", id("A"), id("A")), id("B")).notation(), "(A→A)→B");
    assert_eq!(all("x", id("A"), app(id("P"), id("x"))).notation(), "∀x:A.P x");
    assert_eq!(all("x", id("Prop"), id("x")).notation(), "⊥");
    assert_eq!(all("x", id("Set"), id("x")).notation(), "⊥");
    assert_eq!(all("x", id("Set"), app(id("x"), id("x"))).notation(), "∀x:Set.x x");
    assert_eq!(fix("f", id("A"), id("f")).notation(), "𝐘f:A.f");
    assert_eq!(cons(id("A"), id("b")).notation(), "℺A.b");
}

#[test]
fn fixed_point_reduction_repeats() {
    let mut t = fix("f", id("A"), lam("x", id("B"), app(id("f"), id("x"))));
    assert!(t.fixed_point_reduce(false));
    assert!(t.fixed_point_reduce(false));
    assert!(t.fixed_point_reduce(false));
    let mut s = app(id("g"), fix("s", id("Set"), all("T", id("Set"), id("T"))));
    assert!(s.fixed_point_reduce(true));
    assert!(s.fixed_point_reduce(true));
}

#[test]
fn normalization_leaves_no_redex() {
    let mut t = app(
        lam("f", id("A"), lam("y", id("B"), app(id("f"), id("y")))),
        lam("z", id("C"), app(app(lam("w", id("D"), id("w")), id("z")), id("z"))),
    );
    t.normalize();
    let before = t.clone();
    assert!(!t.beta_reduce());
    assert!(!t.eta_reduce());
    assert!(t == before);
    // normalizing again changes nothing
    t.normalize();
    assert!(t == before);
    assert!(t == lam("y", id("B"), app(id("y"), id("y"))));
}

#[test]
fn replace_removes_the_variable() {
    let mut t = app(lam("y", id("x"), app(id("x"), id("y"))), all("x", id("A"), id("x")));
    t.replace(&"x".to_string(), &app(id("y"), id("z")));
    assert!(!t.contains(&"x".to_string()));
    // the free variables of the value stay free: nothing is captured
    assert!(t.contains(&"y".to_string()));
    assert!(t.contains(&"z".to_string()));
    // replacing a variable by itself changes nothing
    let t0 = lam("y", id("A"), app(id("x"), id("y")));
    let mut t = t0.clone();
    t.replace(&"x".to_string(), &id("x"));
    assert!(t == t0);
}

#[test]
fn alpha_normalization_separates_different_terms() {
    let mut a = lam("x", id("A"), id("x"));
    let mut b = lam("x", id("A"), id("y"));
    a.alpha_normalize();
    b.alpha_normalize();
    assert!(a != b);
    // normalizing twice is normalizing once
    let once = a.clone();
    a.alpha_normalize();
    assert!(a == once);
}
