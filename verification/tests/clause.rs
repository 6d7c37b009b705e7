use bear::clause::{ClauseStore, InferenceInfo, InferenceRule, Literal};
use bear::term::{SymbolTable, TermArena};
use bear::unify::Substitution;

/// Fixture only contains `SymbolTable` (shared across tests within a function
/// if needed). `TermArena` is intentionally created per test so that each
/// test is independent of one another.
///

struct Fixture {
    symbols: SymbolTable,
    p: u32, // predicate P/1
    q: u32, // predicate Q/2
    f: u32, // function f/1
    a: u32, // constant a
    b: u32, // constant b
}

fn fixture() -> Fixture {
    let mut symbols = SymbolTable::new();
    let p = symbols.intern("P");
    let q = symbols.intern("Q");
    let f = symbols.intern("f");
    let a = symbols.intern("a");
    let b = symbols.intern("b");
    Fixture { symbols, p, q, f, a, b }
}

fn resolution(left: u32, right: u32) -> InferenceRule {
    InferenceRule::Resolution {
        left,
        left_lit: 0,
        right,
        right_lit: 0,
        unifier: Substitution::new(),
    }
}

fn factoring(parent: u32) -> InferenceRule {
    InferenceRule::Factoring { parent, lit_a: 0, lit_b: 1, unifier: Substitution::new() }
}

#[test]
fn literal_polarity_and_negate() {
    let fx = fixture();
    let mut arena = TermArena::new();
    let a_term = arena.mk_app(fx.a, &[]);

    let pos = Literal::positive(fx.p, vec![a_term]);
    assert!(pos.is_positive());
    assert!(!pos.is_negative());

    let neg = pos.negate();
    assert!(neg.is_negative());
    assert_eq!(neg.predicate, pos.predicate);
    assert_eq!(neg.args, pos.args);

    // negate() does not mutate the original literal
    assert!(pos.is_positive());
}

#[test]
fn literal_arity() {
    let fx = fixture();
    let mut arena = TermArena::new();
    let a = arena.mk_app(fx.a, &[]);
    let b = arena.mk_app(fx.b, &[]);

    let unary = Literal::positive(fx.p, vec![a]);
    let binary = Literal::positive(fx.q, vec![a, b]);

    assert_eq!(unary.arity(), 1);
    assert_eq!(binary.arity(), 2);
}

#[test]
fn ground_complementary_literals() {
    let fx = fixture();
    let mut arena = TermArena::new();
    let a = arena.mk_app(fx.a, &[]);
    let b = arena.mk_app(fx.b, &[]);

    let p_a_pos = Literal::positive(fx.p, vec![a]);
    let p_a_neg = Literal::negative(fx.p, vec![a]);
    let p_b_neg = Literal::negative(fx.p, vec![b]);
    let q_a_neg = Literal::negative(fx.q, vec![a, a]);

    assert!(p_a_pos.is_complementary_ground(&p_a_neg));
    assert!(p_a_neg.is_complementary_ground(&p_a_pos)); // symmetric

    // Different arguments -> not complements even if predicate & polarity match.
    assert!(!p_a_pos.is_complementary_ground(&p_b_neg));

    // Different predicate -> not complements.
    assert!(!p_a_pos.is_complementary_ground(&q_a_neg));

    // Same polarity -> not complements.
    assert!(!p_a_pos.is_complementary_ground(&Literal::positive(fx.p, vec![a])));
}

#[test]
fn literal_weight_counts_predicate_and_arg_sizes() {
    let fx = fixture();
    let mut arena = TermArena::new();
    let a = arena.mk_app(fx.a, &[]); // size 1
    let fa = arena.mk_app(fx.f, &[a]); // size 2

    // P(a): 1 (predicate) + size(a)=1 => 2
    let lit_a = Literal::positive(fx.p, vec![a]);
    assert_eq!(lit_a.weight(&arena), 2);

    // P(f(a)): 1 (predicate) + size(f(a))=2 => 3
    let lit_fa = Literal::positive(fx.p, vec![fa]);
    assert_eq!(lit_fa.weight(&arena), 3);

    // Propositional (arity 0): predicate only => 1
    let prop = Literal::positive(fx.p, vec![]);
    assert_eq!(prop.weight(&arena), 1);
}

#[test]
fn clause_store_assigns_sequential_id_and_age() {
    let fx = fixture();
    let mut arena = TermArena::new();
    let mut store = ClauseStore::new();
    let a = arena.mk_app(fx.a, &[]);

    let c0 = store.insert(
        vec![Literal::positive(fx.p, vec![a])],
        InferenceInfo::input(),
        &arena
    );
    let c1 = store.insert(
        vec![Literal::negative(fx.p, vec![a])],
        InferenceInfo::input(),
        &arena
    );

    assert_eq!(c0, 0);
    assert_eq!(c1, 1);
    assert_eq!(store.get(c0).age, 0);
    assert_eq!(store.get(c1).age, 1);
    assert_eq!(store.len(), 2);
}

#[test]
fn clause_weight_is_sum_of_literal_weights() {
    let fx = fixture();
    let mut arena = TermArena::new();
    let mut store = ClauseStore::new();
    let a = arena.mk_app(fx.a, &[]);
    let b = arena.mk_app(fx.b, &[]);

    // P(a) | ~Q(a, b) => weight = (1+1) + (1+1+1) = 2 + 3 = 5
    let literals = vec![Literal::positive(fx.p, vec![a]), Literal::negative(fx.q, vec![a, b])];
    let id = store.insert(literals, InferenceInfo::input(), &arena);
    assert_eq!(store.get(id).weight, 5);
}

#[test]
fn empty_clause_detected() {
    let arena = TermArena::new();
    let mut store = ClauseStore::new();
    let id = store.insert(vec![], InferenceInfo::input(), &arena);

    assert!(store.get(id).is_empty());
    assert_eq!(store.get(id).weight, 0);
}

#[test]
fn non_empty_clause_is_not_empty() {
    let fx = fixture();
    let mut arena = TermArena::new();
    let mut store = ClauseStore::new();
    let a = arena.mk_app(fx.a, &[]);
    let id = store.insert(
        vec![Literal::positive(fx.p, vec![a])],
        InferenceInfo::input(),
        &arena
    );

    assert!(!store.get(id).is_empty());
}

#[test]
fn inference_info_tracks_rule_and_parents() {
    let fx = fixture();
    let mut arena = TermArena::new();
    let mut store = ClauseStore::new();
    let a = arena.mk_app(fx.a, &[]);

    let parent1 = store.insert(
        vec![Literal::positive(fx.p, vec![a])],
        InferenceInfo::input(),
        &arena
    );
    let parent2 = store.insert(
        vec![Literal::negative(fx.p, vec![a])],
        InferenceInfo::input(),
        &arena
    );
    let resolvent = store.insert(
        vec![], // resolution of P(a) with ~P(a) -> empty clause
        InferenceInfo::from_rule(resolution(parent1, parent2), vec![parent1, parent2]),
        &arena
    );

    let inf = &store.get(resolvent).inference;
    assert_eq!(inf.rule, resolution(parent1, parent2));
    assert_eq!(inf.parents, vec![parent1, parent2]);
    assert_eq!(store.get(parent1).inference.rule, InferenceRule::Input);
}

#[test]
fn proof_trace_walks_back_to_input_clauses() {
    let fx = fixture();
    let mut arena = TermArena::new();
    let mut store = ClauseStore::new();
    let a = arena.mk_app(fx.a, &[]);

    // c0, c1 = input; c2 = resolvent(c0, c1); c3 = factoring(c2) (dummy, to make a 2-level chain)
    let c0 = store.insert(
        vec![Literal::positive(fx.p, vec![a])],
        InferenceInfo::input(),
        &arena
    );
    let c1 = store.insert(
        vec![Literal::negative(fx.p, vec![a])],
        InferenceInfo::input(),
        &arena
    );
    let c2 = store.insert(
        vec![],
        InferenceInfo::from_rule(resolution(c0, c1), vec![c0, c1]),
        &arena
    );
    let c3 = store.insert(
        vec![],
        InferenceInfo::from_rule(factoring(c2), vec![c2]),
        &arena
    );

    let trace = store.proof_trace(c3);

    // Parents must appear before children in the trace (topological order).
    let pos = |id: u32|
        trace
            .iter()
            .position(|&x| x == id)
            .unwrap();
    assert!(pos(c0) < pos(c2));
    assert!(pos(c1) < pos(c2));
    assert!(pos(c2) < pos(c3));
    assert_eq!(*trace.last().unwrap(), c3);
    assert_eq!(trace.len(), 4);
}

#[test]
fn clause_display_formats_literals_with_bar_separator() {
    let fx = fixture();
    let mut arena = TermArena::new();
    let mut store = ClauseStore::new();
    let a = arena.mk_app(fx.a, &[]);

    let id = store.insert(
        vec![Literal::positive(fx.p, vec![a]), Literal::negative(fx.q, vec![a, a])],
        InferenceInfo::input(),
        &arena
    );

    let text = store.get(id).display(&arena, &fx.symbols);
    assert_eq!(text, "P(a) | ~Q(a, a)");
}

#[test]
fn empty_clause_displays_as_bottom_symbol() {
    let arena = TermArena::new();
    let symbols = SymbolTable::new();
    let mut store = ClauseStore::new();
    let id = store.insert(vec![], InferenceInfo::input(), &arena);

    assert_eq!(store.get(id).display(&arena, &symbols), "⊥");
}
