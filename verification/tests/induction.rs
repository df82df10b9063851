use lib::error::KernelError;
use lib::state::State;
use lib::term::{Term, TermDebugContext};

fn id(s: &str) -> Term {
    Term::Identifier(s.to_string(), TermDebugContext::Ignore)
}

fn app(f: Term, p: Term) -> Term {
    Term::Application {
        function_term: Box::new(f),
        parameter_term: Box::new(p),
        debug_context: TermDebugContext::Ignore,
    }
}

fn apps(f: Term, ps: Vec<Term>) -> Term {
    let mut t = f;
    for p in ps {
        t = app(t, p);
    }
    t
}

fn lam(x: &str, a: Term, b: Term) -> Term {
    Term::Lambda {
        binding_identifier: x.to_string(),
        binding_type: Box::new(a),
        value_term: Box::new(b),
        debug_context: TermDebugContext::Ignore,
    }
}

fn all(x: &str, a: Term, b: Term) -> Term {
    Term::Forall {
        binding_identifier: x.to_string(),
        binding_type: Box::new(a),
        value_term: Box::new(b),
        debug_context: TermDebugContext::Ignore,
    }
}

fn fix(x: &str, a: Term, b: Term) -> Term {
    Term::FixedPoint {
        binding_identifier: x.to_string(),
        binding_type: Box::new(a),
        value_term: Box::new(b),
        debug_context: TermDebugContext::Ignore,
    }
}

fn cons(a: Term, b: Term) -> Term {
    Term::Constructor {
        type_term: Box::new(a),
        value_term: Box::new(b),
        debug_context: TermDebugContext::Ignore,
    }
}

/// nat = 𝐘self:Set.∀R:Type.∀T:R.∀_:T.∀_:(∀_:self.T).T
fn nat_value() -> Term {
    fix(
        "self",
        id("Set"),
        all(
            "R",
            id("Type"),
            all(
                "T",
                id("R"),
                all("_", id("T"), all("_", all("_", id("self"), id("T")), id("T"))),
            ),
        ),
    )
}

/// An instance of nat: ℺nat.λR:Type.λT:R.λa:T.λb:(∀_:nat.T).body
fn nat_instance(body: Term) -> Term {
    cons(
        id("nat"),
        lam(
            "R",
            id("Type"),
            lam("T", id("R"), lam("a", id("T"), lam("b", all("_", id("nat"), id("T")), body))),
        ),
    )
}

/// O = ℺nat.λR:Type.λT:R.λa:T.λb:(∀_:nat.T).a
fn zero_value() -> Term {
    nat_instance(id("a"))
}

/// S = λx:nat.℺nat.λR:Type.λT:R.λa:T.λb:(∀_:nat.T).b x
fn successor_value() -> Term {
    lam("x", id("nat"), nat_instance(app(id("b"), id("x"))))
}

fn nat_to_nat() -> Term {
    all("_", id("nat"), id("nat"))
}

/// ∀_:nat.∀_:nat.nat
fn add_type() -> Term {
    all("_", id("nat"), nat_to_nat())
}

/// add = 𝐘self:(∀_:nat.∀_:nat.nat).λn:nat.λm:nat.n Set nat m (λp:nat.S (self p m))
fn add_value() -> Term {
    fix(
        "self",
        add_type(),
        lam(
            "n",
            id("nat"),
            lam(
                "m",
                id("nat"),
                apps(
                    id("n"),
                    vec![
                        id("Set"),
                        id("nat"),
                        id("m"),
                        lam("p", id("nat"), app(id("S"), apps(id("self"), vec![id("p"), id("m")]))),
                    ],
                ),
            ),
        ),
    )
}

/// ∀P:(∀_:nat.Prop).∀_:P O.∀_:(∀n:nat.∀_:P n.P (S n)).∀n:nat.P n
fn induction_type() -> Term {
    let p = |t: Term| app(id("P"), t);
    all(
        "P",
        all("_", id("nat"), id("Prop")),
        all(
            "_",
            p(id("O")),
            all(
                "_",
                all("n", id("nat"), all("_", p(id("n")), p(app(id("S"), id("n"))))),
                all("n", id("nat"), p(id("n"))),
            ),
        ),
    )
}

/// 𝐘self:(induction type).λP:(∀_:nat.Prop).λpO:P O.λh:(∀n:nat.∀_:P n.P (S n)).
/// λn:nat.n Prop (P n) pO (λp:nat.h p (self P pO h p))
fn induction_value() -> Term {
    let p = |t: Term| app(id("P"), t);
    fix(
        "self",
        induction_type(),
        lam(
            "P",
            all("_", id("nat"), id("Prop")),
            lam(
                "pO",
                p(id("O")),
                lam(
                    "h",
                    all("n", id("nat"), all("_", p(id("n")), p(app(id("S"), id("n"))))),
                    lam(
                        "n",
                        id("nat"),
                        apps(
                            id("n"),
                            vec![
                                id("Prop"),
                                p(id("n")),
                                id("pO"),
                                lam(
                                    "p",
                                    id("nat"),
                                    apps(
                                        id("h"),
                                        vec![
                                            id("p"),
                                            apps(
                                                id("self"),
                                                vec![id("P"), id("pO"), id("h"), id("p")],
                                            ),
                                        ],
                                    ),
                                ),
                            ],
                        ),
                    ),
                ),
            ),
        ),
    )
}

fn define(state: &mut State, name: &str, ty: Term, value: Term) {
    match state.try_define(&name.to_string(), ty, value) {
        Ok(()) => {}
        Err(e) => panic!("defining {} failed: {:?}", name, e),
    }
}

fn define_naturals(state: &mut State) {
    define(state, "nat", id("Set"), nat_value());
    define(state, "O", id("nat"), zero_value());
    define(state, "S", nat_to_nat(), successor_value());
}

#[test]
fn natural_numbers() {
    let mut state = State::new();
    define(&mut state, "nat", id("Set"), nat_value());
    assert_eq!(state.len(), 1);
}

#[test]
fn nat_constructors() {
    let mut state = State::new();
    define_naturals(&mut state);
    assert_eq!(state.len(), 3);
}

#[test]
fn add() {
    let mut state = State::new();
    define_naturals(&mut state);
    define(&mut state, "add", add_type(), add_value());
    assert_eq!(state.len(), 4);
}

#[test]
fn nat_induction() {
    let mut state = State::new();
    define_naturals(&mut state);
    define(&mut state, "nat_induction", induction_type(), induction_value());
    assert_eq!(state.len(), 4);
}

#[test]
fn successor_takes_a_number() {
    let mut state = State::new();
    define_naturals(&mut state);
    // S O is a number, S S is not
    define(&mut state, "one", id("nat"), app(id("S"), id("O")));
    match state.try_define(&"bad".to_string(), id("nat"), app(id("S"), id("S"))) {
        Err(KernelError::NonmatchingArgument { .. }) => {}
        other => panic!("unexpected {:?}", other),
    }
}

#[test]
fn recursion_must_decrease_in_every_arm() {
    let mut state = State::new();
    define_naturals(&mut state);
    // the second argument of the match calls self on n itself, not on p
    let looping = fix(
        "self",
        nat_to_nat(),
        lam(
            "n",
            id("nat"),
            apps(
                id("n"),
                vec![
                    id("Set"),
                    id("nat"),
                    app(id("self"), id("n")),
                    lam("p", id("nat"), id("p")),
                ],
            ),
        ),
    );
    match state.try_define(&"f".to_string(), nat_to_nat(), looping) {
        Err(KernelError::NonprimitiveRecursiveFunction { .. }) => {}
        other => panic!("unexpected {:?}", other),
    }
}

#[test]
fn fixed_point_body_must_have_the_stated_type() {
    // 𝐘S:Prop.∀R:Type.∀T:R.T: the body is a Set, not a Prop
    let t = fix("S", id("Prop"), all("R", id("Type"), all("T", id("R"), id("T"))));
    match t.infer_type(&State::new()) {
        Err(KernelError::NonmatchingDefinition { expected_type, observed_type, .. }) => {
            assert!(expected_type == id("Prop"));
            assert!(observed_type == id("Set"));
        }
        other => panic!("unexpected {:?}", other),
    }
    // with Set stated, it is an inductive type of type Set
    let t = fix("S", id("Set"), all("R", id("Type"), all("T", id("R"), id("T"))));
    assert!(t.infer_type(&State::new()).ok() == Some(id("Set")));
}

#[test]
fn recursive_functions_take_their_stated_type() {
    let mut state = State::new();
    define_naturals(&mut state);
    let ty = add_value().infer_type(&state);
    assert!(ty.ok() == Some(add_type()));
}

#[test]
fn delta_reduction_follows_chains_of_definitions() {
    let mut state = State::new();
    define(&mut state, "U", id("Type"), id("Set"));
    define(&mut state, "V", id("Type"), id("U"));
    let mut t = id("V");
    t.delta_normalize(&state);
    assert!(t == id("Set"));
    let mut t = app(id("V"), lam("x", id("U"), id("x")));
    t.delta_normalize(&state);
    assert!(t == app(id("Set"), lam("x", id("Set"), id("x"))));
}

#[test]
fn recursive_calls_go_through_match_arms() {
    let (n, f) = ("n".to_string(), "f".to_string());
    // n T (f n): f is applied outside any arm of the match on n
    let body = app(app(id("n"), id("T")), app(id("f"), id("n")));
    assert!(!body.check_strictly_decreasing(0, &n, &f));
    // n T (λp:X.f p): f takes the arm's own parameter
    let body = app(app(id("n"), id("T")), lam("p", id("X"), app(id("f"), id("p"))));
    assert!(body.check_strictly_decreasing(0, &n, &f));
    // n T (λp:X.f n): the arm passes n itself back
    let body = app(app(id("n"), id("T")), lam("p", id("X"), app(id("f"), id("n"))));
    assert!(!body.check_strictly_decreasing(0, &n, &f));
}

#[test]
fn equivalent_terms_share_a_full_normal_form() {
    let mut state = State::new();
    define(&mut state, "U", id("Type"), id("Set"));
    define(&mut state, "V", id("Type"), id("U"));
    // a δ-reduction pass: V against U
    let mut a = id("V");
    let mut b = id("U");
    a.full_normalize(&state);
    b.full_normalize(&state);
    assert!(a == b);
    assert!(a == id("Set"));
    // a β-reduction: (λx:Type.x) Prop against Prop
    let mut a = app(lam("x", id("Type"), id("x")), id("Prop"));
    let mut b = id("Prop");
    a.full_normalize(&state);
    b.full_normalize(&state);
    assert!(a == b);
    // an η-reduction: λy:Set.(f y) against f
    let mut a = lam("y", id("Set"), app(id("f"), id("y")));
    let mut b = id("f");
    a.full_normalize(&state);
    b.full_normalize(&state);
    assert!(a == b);
    // a fixed point expansion: 𝐘g:Set.λx:V.x against (λg:Set.λx:V.x)(𝐘g:Set.λx:V.x)
    let y = fix("g", id("Set"), lam("x", id("V"), id("x")));
    let mut a = y.clone();
    let mut b = app(lam("g", id("Set"), lam("x", id("V"), id("x"))), y);
    a.full_normalize(&state);
    b.full_normalize(&state);
    assert!(a == b);
    assert!(a == lam("#0", id("Set"), id("#0")));
    // a renaming of bound identifiers: λx:V.(λy:Set.y) x against λz:V.(λw:Set.w) z
    let mut a = lam("x", id("V"), app(lam("y", id("Set"), id("y")), id("x")));
    let mut b = lam("z", id("V"), app(lam("w", id("Set"), id("w")), id("z")));
    a.full_normalize(&state);
    b.full_normalize(&state);
    assert!(a == b);
}

#[test]
fn ill_typed_convertible_terms_may_normalize_apart() {
    // λx:Set.((λy:Prop.y) x) is ill-typed: x is no Prop
    let inner = lam("y", id("Prop"), id("y"));
    let t = lam("x", id("Set"), app(inner.clone(), id("x")));
    match t.infer_type(&State::new()) {
        Err(KernelError::NonmatchingArgument { .. }) => {}
        other => panic!("unexpected {:?}", other),
    }
    // its β-reduct is λx:Set.x, its η-reduct λy:Prop.y
    let mut a = t.clone();
    let mut b = inner;
    a.full_normalize(&State::new());
    b.full_normalize(&State::new());
    assert!(a == lam("#0", id("Set"), id("#0")));
    assert!(b == lam("#0", id("Prop"), id("#0")));
}

#[test]
fn full_normalization_is_idempotent() {
    let mut state = State::new();
    define(&mut state, "U", id("Type"), id("Set"));
    let mut t = lam("x", id("U"), app(lam("y", id("Set"), app(id("f"), id("y"))), id("x")));
    t.full_normalize(&state);
    let once = t.clone();
    t.full_normalize(&state);
    assert!(t == once);
    assert!(once == id("f"));
}

#[test]
fn stated_types_are_compared_in_full_normal_form() {
    let mut state = State::new();
    // (λX:Type.X) Prop normalizes to Prop, the type of ∀P:Prop.P
    let ty = app(lam("X", id("Type"), id("X")), id("Prop"));
    define(&mut state, "F", ty, all("P", id("Prop"), id("P")));
    // (λX:Type.X) Set does not
    let ty = app(lam("X", id("Type"), id("X")), id("Set"));
    match state.try_define(&"G".to_string(), ty, all("P", id("Prop"), id("P"))) {
        Err(KernelError::NonmatchingDefinition { expected_type, observed_type, .. }) => {
            assert!(expected_type == id("Set"));
            assert!(observed_type == id("Prop"));
        }
        other => panic!("unexpected {:?}", other),
    }
}

#[test]
fn inductive_types_are_strictly_positive_in_their_motive() {
    // ∀R:Type.∀T:R.∀_:T.T is a Set
    let t = all("R", id("Type"), all("T", id("R"), all("_", id("T"), id("T"))));
    assert!(t.infer_type(&State::new()).ok() == Some(id("Set")));
    // ∀R:Type.∀T:R.∀_:(∀_:T.T).T has T in a negative position
    let t = all(
        "R",
        id("Type"),
        all("T", id("R"), all("_", all("_", id("T"), id("T")), id("T"))),
    );
    match t.infer_type(&State::new()) {
        Err(KernelError::NegativeInductiveDefinition { negative_subterm, .. }) => {
            assert!(negative_subterm == id("T"))
        }
        other => panic!("unexpected {:?}", other),
    }
}

#[test]
fn recursion_needs_an_inductive_parameter() {
    let mut state = State::new();
    define_naturals(&mut state);
    // g : nat→nat is of type Set but is no inductive type
    let f = fix(
        "f",
        all("_", nat_to_nat(), id("nat")),
        lam("g", nat_to_nat(), app(id("g"), id("O"))),
    );
    match state.try_define(&"f".to_string(), all("_", nat_to_nat(), id("nat")), f) {
        Err(KernelError::NonprimitiveRecursiveFunction { .. }) => {}
        other => panic!("unexpected {:?}", other),
    }
}
