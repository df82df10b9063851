use lib::error::KernelError;
use lib::state::State;
use lib::term::{Term, TermDebugContext};

fn id(s: &str) -> Term {
    Term::Identifier(s.to_string(), TermDebugContext::Ignore)
}

fn id_at(s: &str, span: (usize, usize)) -> Term {
    Term::Identifier(s.to_string(), TermDebugContext::CodeSpan(span))
}

fn app(f: Term, p: Term) -> Term {
    Term::Application {
        function_term: Box::new(f),
        parameter_term: Box::new(p),
        debug_context: TermDebugContext::Ignore,
    }
}

fn lam(x: &str, a: Term, b: Term) -> Term {
    Term::Lambda {
        binding_identifier: x.to_string(),
        binding_type: Box::new(a),
        value_term: Box::new(b),
        debug_context: TermDebugContext::Ignore,
    }
}

fn all(x: &str, a: Term, b: Term) -> Term {
    Term::Forall {
        binding_identifier: x.to_string(),
        binding_type: Box::new(a),
        value_term: Box::new(b),
        debug_context: TermDebugContext::Ignore,
    }
}

fn fix(x: &str, a: Term, b: Term) -> Term {
    Term::FixedPoint {
        binding_identifier: x.to_string(),
        binding_type: Box::new(a),
        value_term: Box::new(b),
        debug_context: TermDebugContext::Ignore,
    }
}

fn cons(a: Term, b: Term) -> Term {
    Term::Constructor {
        type_term: Box::new(a),
        value_term: Box::new(b),
        debug_context: TermDebugContext::Ignore,
    }
}

fn type_in(t: &Term, state: &State) -> Term {
    match t.infer_type(state) {
        Ok(ty) => ty,
        Err(e) => panic!("unexpected error {:?}", e),
    }
}

fn type_of(t: &Term) -> Term {
    type_in(t, &State::new())
}

/// The natural numbers: 𝐘self:Set.∀R:Type.∀T:R.∀_:T.∀_:(∀_:self.T).T
fn nat_term() -> Term {
    fix(
        "self",
        id("Set"),
        all(
            "R",
            id("Type"),
            all(
                "T",
                id("R"),
                all("_", id("T"), all("_", all("_", id("self"), id("T")), id("T"))),
            ),
        ),
    )
}

#[test]
fn universes_have_types() {
    assert!(type_of(&id("Set")) == id("Type"));
    assert!(type_of(&id("Prop")) == id("Type"));
    assert!(type_of(&id("Type")) == id("Type0"));
    assert!(type_of(&id("Type0")) == id("Type1"));
    assert!(type_of(&id("Type3")) == id("Type4"));
    assert!(type_of(&id("Type41")) == id("Type42"));
}

#[test]
fn universe_types_point_back_at_the_term() {
    let ty = type_of(&id_at("Set", (1, 4)));
    assert_eq!(ty.debug_context().get_span(), (1, 4));
    match ty.debug_context() {
        TermDebugContext::TypeOf(_) => {}
        _ => panic!("the type of Set is the type of a term"),
    }
}

#[test]
fn undefined_identifiers_are_reported() {
    match id_at("foo", (7, 10)).infer_type(&State::new()) {
        Err(KernelError::UndefinedIdentifier { identifier, identifier_context }) => {
            assert_eq!(identifier, "foo");
            assert_eq!(identifier_context.get_span(), (7, 10));
        }
        other => panic!("unexpected {:?}", other),
    }
    // names that only look like universes are ordinary identifiers
    for name in ["Types", "Type-1", "Typ", "type"] {
        match id(name).infer_type(&State::new()) {
            Err(KernelError::UndefinedIdentifier { identifier, .. }) => assert_eq!(identifier, name),
            other => panic!("unexpected {:?}", other),
        }
    }
}

#[test]
fn abstraction_types() {
    let ty = type_of(&lam("x", id("Set"), id("x")));
    assert!(ty == all("x", id("Set"), id("Set")));
    assert_eq!(ty.notation(), "Set→Set");
    let ty = type_of(&lam("x", id("Prop"), id("x")));
    assert!(ty == all("x", id("Prop"), id("Prop")));
    let ty = type_of(&lam("T", id("Type"), lam("y", id("T"), id("y"))));
    assert!(ty == all("T", id("Type"), all("y", id("T"), id("T"))));
    assert_eq!(ty.notation(), "∀T:Type.T→T");
}

#[test]
fn captured_binders_are_renamed() {
    let ty = type_of(&lam("x", id("Set"), lam("x", id("Set"), id("x"))));
    assert!(ty == all("x", id("Set"), all("x0", id("Set"), id("Set"))));
    match ty {
        Term::Forall { value_term, .. } => match *value_term {
            Term::Forall { binding_identifier, .. } => assert_eq!(binding_identifier, "x0"),
            other => panic!("unexpected {:?}", other),
        },
        other => panic!("unexpected {:?}", other),
    }
    // a name defined in the state is captured too
    let mut state = State::new();
    assert!(state.try_define(&"A".to_string(), id("Type"), id("Set")).is_ok());
    let ty = type_in(&lam("A", id("Set"), id("A")), &state);
    assert!(ty == all("A0", id("Set"), id("Set")));
}

#[test]
fn product_types() {
    // ⊥ is a proposition
    assert!(type_of(&all("x", id("Prop"), id("x"))) == id("Prop"));
    assert!(type_of(&all("T", id("Set"), id("T"))) == id("Set"));
    // a product ending in its own binder is a set
    assert!(type_of(&all("R", id("Type"), all("T", id("R"), id("T")))) == id("Set"));
}

#[test]
fn binding_types_must_be_types() {
    let bad = lam("y", id("Set"), id("y"));
    match lam("x", bad.clone(), id("x")).infer_type(&State::new()) {
        Err(KernelError::InvalidType { incorrect_term, incorrect_type, .. }) => {
            assert!(incorrect_term == bad);
            assert!(incorrect_type == all("y", id("Set"), id("Set")));
        }
        other => panic!("unexpected {:?}", other),
    }
}

#[test]
fn application_types() {
    let t = app(lam("x", id("Type"), id("x")), id("Set"));
    assert!(type_of(&t) == id("Type"));
    // the argument is substituted into the result type
    let t = app(lam("T", id("Type"), lam("y", id("T"), id("y"))), id("Set"));
    assert!(type_of(&t) == all("y", id("Set"), id("Set")));
}

#[test]
fn applying_a_non_function_fails() {
    match app(id("Set"), id("Set")).infer_type(&State::new()) {
        Err(KernelError::InvalidApplication { nonfunction_type, .. }) => {
            assert!(nonfunction_type == id("Type"))
        }
        other => panic!("unexpected {:?}", other),
    }
}

#[test]
fn arguments_must_match() {
    let f = Term::Lambda {
        binding_identifier: "x".to_string(),
        binding_type: Box::new(id("Prop")),
        value_term: Box::new(id("x")),
        debug_context: TermDebugContext::CodeSpan((0, 8)),
    };
    let t = app(f, id_at("Set", (9, 12)));
    match t.infer_type(&State::new()) {
        Err(KernelError::NonmatchingArgument {
            expected_type,
            observed_type,
            function_context,
            parameter_context,
        }) => {
            assert!(expected_type == id("Prop"));
            assert!(observed_type == id("Type"));
            assert_eq!(function_context.get_span(), (0, 8));
            assert_eq!(parameter_context.get_span(), (9, 12));
        }
        other => panic!("unexpected {:?}", other),
    }
}

#[test]
fn fixed_points_need_a_shape() {
    match fix("x", id("Set"), id("x")).infer_type(&State::new()) {
        Err(KernelError::MisshapenRecursiveDefinition { unexpected_subterm, .. }) => {
            assert!(unexpected_subterm == id("x"))
        }
        other => panic!("unexpected {:?}", other),
    }
}

#[test]
fn fixed_point_types_cannot_refer_to_themselves() {
    let t = fix("x", id("Type"), lam("y", id("x"), id("y")));
    match t.infer_type(&State::new()) {
        Err(KernelError::SelfReferencingRecursiveType { .. }) => {}
        other => panic!("unexpected {:?}", other),
    }
}

#[test]
fn recursion_must_be_primitive() {
    let t = fix(
        "f",
        all("_", id("Set"), id("Set")),
        lam("n", id("Set"), app(id("f"), app(id("f"), id("n")))),
    );
    match t.infer_type(&State::new()) {
        Err(KernelError::NonprimitiveRecursiveFunction { .. }) => {}
        other => panic!("unexpected {:?}", other),
    }
}

#[test]
fn inductive_types_are_sets() {
    assert!(type_of(&nat_term()) == id("Set"));
}

#[test]
fn inductive_types_must_be_positive() {
    let t = fix(
        "S",
        id("Set"),
        all(
            "R",
            id("Type"),
            all(
                "T",
                id("R"),
                all("_", all("_", all("_", id("S"), id("Prop")), id("T")), id("T")),
            ),
        ),
    );
    match t.infer_type(&State::new()) {
        Err(KernelError::NegativeInductiveDefinition { negative_subterm, .. }) => {
            assert!(negative_subterm == id("S"))
        }
        other => panic!("unexpected {:?}", other),
    }
    // with T in place of Prop, T is not strictly positive either, and that
    // is found first, while the body is typed
    let t = fix(
        "S",
        id("Set"),
        all(
            "R",
            id("Type"),
            all(
                "T",
                id("R"),
                all("_", all("_", all("_", id("S"), id("T")), id("T")), id("T")),
            ),
        ),
    );
    match t.infer_type(&State::new()) {
        Err(KernelError::NegativeInductiveDefinition { negative_subterm, .. }) => {
            assert!(negative_subterm == all("_", id("S"), id("T")))
        }
        other => panic!("unexpected {:?}", other),
    }
}

#[test]
fn constructor_terms() {
    // ℺Type.Set has type Type: the type of Set is Type itself
    assert!(type_of(&cons(id("Type"), id("Set"))) == id("Type"));
    // ℺Set.Set does not: Set is not of type Set
    match cons(id("Set"), id("Set")).infer_type(&State::new()) {
        Err(KernelError::InvalidInstance {}) => {}
        other => panic!("unexpected {:?}", other),
    }
}

#[test]
fn definitions_are_recorded() {
    let mut state = State::new();
    assert_eq!(state.len(), 0);
    assert!(state.try_define(&"A".to_string(), id("Type"), id("Set")).is_ok());
    assert_eq!(state.len(), 1);
    assert_eq!(state.find(&"A".to_string()), Some(0));
    assert_eq!(state.name_at(0), "A");
    assert!(*state.type_at(0) == id("Type"));
    assert!(*state.value_at(0) == id("Set"));
    // a defined name has its defined type
    assert!(type_in(&id("A"), &state) == id("Type"));
    // the stated type is kept as written
    assert!(state.try_define(&"B".to_string(), id("A"), all("T", id("Set"), id("T"))).is_ok());
    assert_eq!(state.len(), 2);
    assert_eq!(state.find(&"B".to_string()), Some(1));
    assert!(*state.type_at(1) == id("A"));
    assert_eq!(state.find(&"C".to_string()), None);
}

#[test]
fn mismatched_definitions_are_refused() {
    let mut state = State::new();
    assert!(state.try_define(&"A".to_string(), id("Type"), id("Set")).is_ok());
    let r = state.try_define(&"B".to_string(), id_at("Prop", (0, 4)), id_at("Set", (7, 10)));
    match r {
        Err(KernelError::NonmatchingDefinition {
            expected_type,
            observed_type,
            signature_context,
            definition_context,
        }) => {
            assert!(expected_type == id("Prop"));
            assert!(observed_type == id("Type"));
            assert_eq!(signature_context.get_span(), (0, 4));
            assert_eq!(definition_context.get_span(), (7, 10));
        }
        other => panic!("unexpected {:?}", other),
    }
    // the state is left as it was
    assert_eq!(state.len(), 1);
    assert_eq!(state.find(&"B".to_string()), None);
}

#[test]
fn invalid_definitions_are_refused() {
    let mut state = State::new();
    match state.try_define(&"C".to_string(), id("Set"), id("foo")) {
        Err(KernelError::UndefinedIdentifier { identifier, .. }) => assert_eq!(identifier, "foo"),
        other => panic!("unexpected {:?}", other),
    }
    // the stated type is checked first
    match state.try_define(&"C".to_string(), id("bar"), id("foo")) {
        Err(KernelError::UndefinedIdentifier { identifier, .. }) => assert_eq!(identifier, "bar"),
        other => panic!("unexpected {:?}", other),
    }
    assert_eq!(state.len(), 0);
}

#[test]
fn redefinition_replaces_in_place() {
    let mut state = State::new();
    assert!(state.try_define(&"A".to_string(), id("Type"), id("Set")).is_ok());
    assert!(state.try_define(&"B".to_string(), id("Type"), id("Set")).is_ok());
    assert!(state.try_define(&"A".to_string(), id("Type"), id("Prop")).is_ok());
    assert_eq!(state.len(), 2);
    assert_eq!(state.find(&"A".to_string()), Some(0));
    assert!(*state.value_at(0) == id("Prop"));
    assert!(*state.value_at(1) == id("Set"));
}

#[test]
fn delta_reduction_uses_the_state() {
    let mut state = State::new();
    assert!(state.try_define(&"A".to_string(), id("Type"), id("Set")).is_ok());
    let mut t = app(id("A"), lam("A", id("A"), id("A")));
    t.delta_normalize(&state);
    assert!(t == app(id("Set"), lam("A", id("Set"), id("A"))));
    // without definitions nothing changes
    let mut t = app(id("A"), id("x"));
    t.delta_normalize(&State::new());
    assert!(t == app(id("A"), id("x")));
}

#[test]
fn full_normalization_compares_equivalent_terms() {
    let mut state = State::new();
    assert!(state.try_define(&"A".to_string(), id("Type"), id("Set")).is_ok());
    let mut a = lam("x", id("A"), app(lam("y", id("Set"), id("y")), id("x")));
    let mut b = lam("z", id("Set"), id("z"));
    a.full_normalize(&state);
    b.full_normalize(&state);
    assert!(a == b);
    assert!(a == lam("#0", id("Set"), id("#0")));
    let mut h = lam("x", id("A"), app(lam("y", id("Set"), id("y")), id("x")));
    h.homonymous_normalize(&state);
    assert!(h == lam("x", id("Set"), id("x")));
}

#[test]
fn normalization_expands_recursive_functions() {
    // 𝐘f:A.λx:B.x normalizes to λx:B.x through one expansion
    let mut t = fix("f", id("A"), lam("x", id("B"), id("x")));
    t.homonymous_normalize(&State::new());
    assert!(t == lam("x", id("B"), id("x")));
}

#[test]
fn natural_numbers_and_zero() {
    let mut state = State::new();
    assert!(state.try_define(&"nat".to_string(), id("Set"), nat_term()).is_ok());
    // O = ℺nat.λR:Type.λT:R.λa:T.λb:(nat→T).a
    let zero = cons(
        id("nat"),
        lam(
            "R",
            id("Type"),
            lam(
                "T",
                id("R"),
                lam("a", id("T"), lam("b", all("_", id("nat"), id("T")), id("a"))),
            ),
        ),
    );
    assert!(state.try_define(&"O".to_string(), id("nat"), zero).is_ok());
    assert_eq!(state.len(), 2);
    assert!(type_in(&id("O"), &state) == id("nat"));
    // a term of the wrong shape is no instance of nat
    let wrong = cons(id("nat"), lam("R", id("Type"), id("R")));
    match state.try_define(&"W".to_string(), id("nat"), wrong) {
        Err(KernelError::InvalidInstance {}) => {}
        other => panic!("unexpected {:?}", other),
    }
    assert_eq!(state.len(), 2);
}

/// An inductive instance of `nat`: ℺nat.λR:Type.λT:R.λ_1:T.λ_0:(∀_2:nat.T).body
fn nat_instance(body: Term) -> Term {
    cons(
        nat_term(),
        lam(
            "R",
            id("Type"),
            lam(
                "T",
                id("R"),
                lam("_1", id("T"), lam("_0", all("_2", nat_term(), id("T")), body)),
            ),
        ),
    )
}

#[test]
fn match_terms_replace_the_motive() {
    // λn:nat.n Set ((λm:nat.nat) n): a match on n whose motive mentions n
    let motive = |t: Term| app(lam("m", nat_term(), nat_term()), t);
    let t = lam("n", nat_term(), app(app(id("n"), id("Set")), motive(id("n"))));
    let zero = nat_instance(id("_1"));
    let successor = nat_instance(app(id("_0"), id("_2")));
    let expected = all(
        "n",
        nat_term(),
        all(
            "_",
            motive(zero),
            all("_", all("_2", nat_term(), motive(successor)), motive(id("n"))),
        ),
    );
    assert!(type_of(&t) == expected);
}

#[test]
fn match_terms_rename_constructor_parameters() {
    // λn:nat.n Set nat: the successor case binds its parameter apart
    let t = lam("n", nat_term(), app(app(id("n"), id("Set")), nat_term()));
    let expected = all(
        "n",
        nat_term(),
        all("_", nat_term(), all("_", all("_2", nat_term(), nat_term()), nat_term())),
    );
    let ty = type_of(&t);
    assert!(ty == expected);
    // an ordinary application would have kept the name `_`
    assert!(ty != all("n", nat_term(), all("_", nat_term(), all("_", all("_", nat_term(), nat_term()), nat_term()))));
}

#[test]
fn inductive_parameters_must_end_in_the_type() {
    // 𝐘S:Set.∀R:Type.∀T:R.∀P:(Set→Set).∀_:(P S).T
    let t = fix(
        "S",
        id("Set"),
        all(
            "R",
            id("Type"),
            all(
                "T",
                id("R"),
                all(
                    "P",
                    all("_", id("Set"), id("Set")),
                    all("_", app(id("P"), id("S")), id("T")),
                ),
            ),
        ),
    );
    match t.infer_type(&State::new()) {
        Err(KernelError::MisshapenInductiveDefinition { unexpected_subterm, .. }) => {
            assert!(unexpected_subterm == app(id("P"), id("S")))
        }
        other => panic!("unexpected {:?}", other),
    }
}
