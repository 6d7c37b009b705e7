use bear::clause::Literal;
use bear::term::{SymbolTable, TermArena};
use bear::unify::{unify, unify_literals, unify_with_occurs_check, Substitution};

struct Fixture {
    symbols: SymbolTable,
    f: u32, // f/1
    g: u32, // g/2
    a: u32, // constant a
    b: u32, // constant b
}

fn fixture() -> Fixture {
    let mut symbols = SymbolTable::new();
    let f = symbols.intern("f");
    let g = symbols.intern("g");
    let a = symbols.intern("a");
    let b = symbols.intern("b");
    Fixture { symbols, f, g, a, b }
}

#[test]
fn unify_two_distinct_variables_binds_one_to_other() {
    let mut arena = TermArena::new();
    let x = arena.mk_var(0);
    let y = arena.mk_var(1);
    let mut subst = Substitution::new();

    assert!(unify(x, y, &arena, &mut subst));
    assert_eq!(subst.len(), 1);

    assert_eq!(subst.resolve(x, &arena), subst.resolve(y, &arena));
}

#[test]
fn unify_same_variable_is_trivially_successful_with_no_new_binding() {
    let mut arena = TermArena::new();
    let x = arena.mk_var(0);
    let mut subst = Substitution::new();

    assert!(unify(x, x, &arena, &mut subst));
    assert!(subst.is_empty(), "unifying X with X itself does not require a new binding");
}

#[test]
fn unify_variable_with_constant() {
    let fx = fixture();
    let mut arena = TermArena::new();
    let x = arena.mk_var(0);
    let a = arena.mk_app(fx.a, &[]);
    let mut subst = Substitution::new();

    assert!(unify(x, a, &arena, &mut subst));
    assert_eq!(subst.resolve(x, &arena), a);
}

#[test]
fn unify_constant_with_variable_symmetric() {
    let fx = fixture();
    let mut arena = TermArena::new();
    let x = arena.mk_var(0);
    let a = arena.mk_app(fx.a, &[]);
    let mut subst = Substitution::new();

    assert!(unify(a, x, &arena, &mut subst));
    assert_eq!(subst.resolve(x, &arena), a);
}

#[test]
fn unify_identical_ground_constants_succeeds_without_binding() {
    let fx = fixture();
    let mut arena = TermArena::new();
    let a1 = arena.mk_app(fx.a, &[]);
    let a2 = arena.mk_app(fx.a, &[]); // interned -> TermId same with a1
    let mut subst = Substitution::new();

    assert!(unify(a1, a2, &arena, &mut subst));
    assert!(subst.is_empty());
}

#[test]
fn unify_different_ground_constants_fails() {
    let fx = fixture();
    let mut arena = TermArena::new();
    let a = arena.mk_app(fx.a, &[]);
    let b = arena.mk_app(fx.b, &[]);
    let mut subst = Substitution::new();

    assert!(!unify(a, b, &arena, &mut subst));
}

#[test]
fn unify_compound_terms_with_matching_structure() {
    let fx = fixture();
    let mut arena = TermArena::new();
    let x = arena.mk_var(0);
    let y = arena.mk_var(1);
    let a = arena.mk_app(fx.a, &[]);
    let b = arena.mk_app(fx.b, &[]);

    // g(X, a) unify g(b, Y) => X = b, Y = a
    let t1 = arena.mk_app(fx.g, &[x, a]);
    let t2 = arena.mk_app(fx.g, &[b, y]);
    let mut subst = Substitution::new();

    assert!(unify(t1, t2, &arena, &mut subst));
    assert_eq!(subst.resolve(x, &arena), b);
    assert_eq!(subst.resolve(y, &arena), a);
}

#[test]
fn unify_fails_on_different_symbol() {
    let fx = fixture();
    let mut arena = TermArena::new();
    let a = arena.mk_app(fx.a, &[]);
    let fa = arena.mk_app(fx.f, &[a]);
    let ga = arena.mk_app(fx.g, &[a, a]);
    let mut subst = Substitution::new();

    assert!(!unify(fa, ga, &arena, &mut subst));
}

#[test]
fn unify_fails_on_different_arity_same_symbol_family() {
    // This case is purely to ensure an argument length mismatch is rejected;
    // in practice, symbols with different arities usually already have different SymbolIds,
    // but we test directly at the argument level just in case.
    let fx = fixture();
    let mut arena = TermArena::new();
    let a = arena.mk_app(fx.a, &[]);
    let fa = arena.mk_app(fx.f, &[a]); // f/1
    let mut subst = Substitution::new();

    // f(a) vs f(a, a) using the same symbol but different arities -> must still fail
    // (here we force the same symbol as symbol f, but with different argument lengths).
    let fa_a = arena.mk_app(fx.f, &[a, a]);
    assert!(!unify(fa, fa_a, &arena, &mut subst));
}

#[test]
fn unify_repeated_variable_forces_consistent_binding() {
    let fx = fixture();
    let mut arena = TermArena::new();
    let x = arena.mk_var(0);
    let a = arena.mk_app(fx.a, &[]);
    let b = arena.mk_app(fx.b, &[]);

    // f(X, X) vs f(a, a) -> X should be consistent = a -> success
    let t1 = arena.mk_app(fx.g, &[x, x]);
    let t2_ok = arena.mk_app(fx.g, &[a, a]);
    let mut subst_ok = Substitution::new();
    assert!(unify(t1, t2_ok, &arena, &mut subst_ok));
    assert_eq!(subst_ok.resolve(x, &arena), a);

    // f(X, X) vs f(a, b) -> X should be a AND b at once -> failed
    let t2_fail = arena.mk_app(fx.g, &[a, b]);
    let mut subst_fail = Substitution::new();
    assert!(!unify(t1, t2_fail, &arena, &mut subst_fail));
}

#[test]
fn occurs_check_rejects_circular_binding() {
    let fx = fixture();
    let mut arena = TermArena::new();
    let x = arena.mk_var(0);
    let fx_term = arena.mk_app(fx.f, &[x]); // f(X)
    let mut subst = Substitution::new();

    // X unify f(X) -> occurs-check must reject (X occurs inside f(X))
    assert!(!unify(x, fx_term, &arena, &mut subst));
}

#[test]
fn occurs_check_disabled_allows_circular_binding_to_be_recorded() {
    let fx = fixture();
    let mut arena = TermArena::new();
    let x = arena.mk_var(0);
    let fx_term = arena.mk_app(fx.f, &[x]);
    let mut subst = Substitution::new();

    // With occurs_check=false, unification "succeeds" (a circular binding
    // is recorded). We INTENTIONALLY do not call `apply` here because it would
    // cause an infinite loop — this is purely to prove that the occurs_check flag indeed
    // changes behavior, not to suggest its use under normal conditions.
    assert!(unify_with_occurs_check(x, fx_term, &arena, &mut subst, false));
    assert_eq!(subst.binding_of(0), Some(fx_term));
}

#[test]
fn resolve_follows_chained_bindings() {
    let fx = fixture();
    let mut arena = TermArena::new();
    let x = arena.mk_var(0);
    let y = arena.mk_var(1);
    let a = arena.mk_app(fx.a, &[]);
    let mut subst = Substitution::new();

    // Build a manual chain: X -> Y, Y -> a
    subst.bind(0, y);
    subst.bind(1, a);

    assert_eq!(subst.resolve(x, &arena), a);
}

#[test]
fn apply_builds_substituted_term_through_chained_binding() {
    let fx = fixture();
    let mut arena = TermArena::new();
    let x = arena.mk_var(0);
    let y = arena.mk_var(1);
    let a = arena.mk_app(fx.a, &[]);
    let mut subst = Substitution::new();
    subst.bind(0, y);
    subst.bind(1, a);

    // f(X) with X -> Y -> a, applying must result in f(a)
    let fx_term = arena.mk_app(fx.f, &[x]);
    let result = subst.apply(fx_term, &mut arena);

    let expected = arena.mk_app(fx.f, &[a]); // f(a) directly
    assert_eq!(result, expected, "apply must produce the same (interned) term as f(a)");
    assert_eq!(arena.display(result, &fx.symbols), "f(a)");
}

#[test]
fn apply_on_ground_term_is_identity() {
    let fx = fixture();
    let mut arena = TermArena::new();
    let a = arena.mk_app(fx.a, &[]);
    let ga = arena.mk_app(fx.g, &[a, a]);
    let subst = Substitution::new(); // empty, no bindings

    let result = subst.apply(ga, &mut arena);
    assert_eq!(result, ga, "a ground term without variables must remain unchanged");
}

#[test]
fn apply_substitutes_nested_occurrences_of_same_variable() {
    let fx = fixture();
    let mut arena = TermArena::new();
    let x = arena.mk_var(0);
    let a = arena.mk_app(fx.a, &[]);
    let mut subst = Substitution::new();
    subst.bind(0, a);

    // g(X, X) with X -> a should become g(a, a), and both arguments
    // are the same TermId `a` (proof that subterm sharing is preserved after apply)
    let gxx = arena.mk_app(fx.g, &[x, x]);
    let result = subst.apply(gxx, &mut arena);
    let args = arena.args(result).to_vec();

    assert_eq!(args, vec![a, a]);
    assert_eq!(arena.display(result, &fx.symbols), "g(a, a)");
}

#[test]
fn unify_and_apply_end_to_end() {
    // Realistic scenario: unify g(X, a) with g(b, Y), then apply the resulting
    // substitution to g(X, Y) itself -> must become g(b, a).
    let fx = fixture();
    let mut arena = TermArena::new();
    let x = arena.mk_var(0);
    let y = arena.mk_var(1);
    let a = arena.mk_app(fx.a, &[]);
    let b = arena.mk_app(fx.b, &[]);

    let t1 = arena.mk_app(fx.g, &[x, a]);
    let t2 = arena.mk_app(fx.g, &[b, y]);
    let mut subst = Substitution::new();
    assert!(unify(t1, t2, &arena, &mut subst));

    let xy = arena.mk_app(fx.g, &[x, y]);
    let result = subst.apply(xy, &mut arena);
    let expected = arena.mk_app(fx.g, &[b, a]);

    assert_eq!(result, expected);
    assert_eq!(arena.display(result, &fx.symbols), "g(b, a)");
}
