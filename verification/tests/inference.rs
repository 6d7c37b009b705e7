use bear::clause::{ClauseStore, InferenceInfo, InferenceRule, Literal};
use bear::inference::{factor, rename_apart, resolve, VarGen};
use bear::term::{SymbolTable, TermArena, TermData};
use std::collections::HashSet;

struct Fixture {
    symbols: SymbolTable,
    p: u32, // predicate P/1
    q: u32, // predicate Q/1
    r: u32, // predicate R/1
    a: u32, // constant a
    b: u32, // constant b
    c: u32, // constant c
}

fn fixture() -> Fixture {
    let mut symbols = SymbolTable::new();
    let p = symbols.intern("P");
    let q = symbols.intern("Q");
    let r = symbols.intern("R");
    let a = symbols.intern("a");
    let b = symbols.intern("b");
    let c = symbols.intern("c");
    Fixture { symbols, p, q, r, a, b, c }
}

/// Collect all raw `VarId`s used in a set of literals (to verify disjointness
/// between rename results).
fn vars_used(literals: &[Literal], arena: &TermArena) -> HashSet<u32> {
    fn walk(t: u32, arena: &TermArena, out: &mut HashSet<u32>) {
        match arena.get(t) {
            TermData::Var(v) => {
                out.insert(v);
            }
            TermData::App(..) => {
                for &a in arena.args(t) {
                    walk(a, arena, out);
                }
            }
        }
    }
    let mut out = HashSet::new();
    for lit in literals {
        for &t in &lit.args {
            walk(t, arena, &mut out);
        }
    }
    out
}

#[test]
fn rename_apart_is_identity_for_ground_clause() {
    let fx = fixture();
    let mut arena = TermArena::new();
    let a = arena.mk_app(fx.a, &[]);
    let literals = vec![Literal::positive(fx.p, vec![a])];
    let mut var_gen = VarGen::new();

    let renamed = rename_apart(&literals, &mut var_gen, &mut arena);
    assert_eq!(renamed, literals, "a clause without variables must remain unchanged");
}

#[test]
fn rename_apart_keeps_repeated_variable_consistent() {
    let fx = fixture();
    let mut arena = TermArena::new();
    let x = arena.mk_var(0);
    // P(X) | Q(X) -- X appears twice, must map to the SAME fresh var.
    let literals = vec![Literal::positive(fx.p, vec![x]), Literal::positive(fx.q, vec![x])];
    let mut var_gen = VarGen::new();

    let renamed = rename_apart(&literals, &mut var_gen, &mut arena);
    assert_eq!(
        renamed[0].args[0],
        renamed[1].args[0],
        "X in both literals must remain identical after rename"
    );
    // But its id must differ from the original variable (original var id 0, if var_gen also starts from 0
    // it could coincidentally collide in value -- what matters is checking *consistency*, covered above).
}

#[test]
fn rename_apart_produces_disjoint_variables_across_two_calls() {
    let fx = fixture();
    let mut arena = TermArena::new();
    let x = arena.mk_var(0); // clause 1 uses var 0
    let y = arena.mk_var(0); // clause 2 ALSO uses var 0 (different scope, coincidentally the same)
    assert_eq!(x, y, "intentional: two independent clauses can have the same raw var id");

    let lits1 = vec![Literal::positive(fx.p, vec![x])];
    let lits2 = vec![Literal::positive(fx.q, vec![y])];

    let mut var_gen = VarGen::new();
    let renamed1 = rename_apart(&lits1, &mut var_gen, &mut arena);
    let renamed2 = rename_apart(&lits2, &mut var_gen, &mut arena);

    let vars1 = vars_used(&renamed1, &arena);
    let vars2 = vars_used(&renamed2, &arena);

    assert!(
        vars1.is_disjoint(&vars2),
        "renamed variables from two different clauses must not overlap: {vars1:?} vs {vars2:?}"
    );
}

#[test]
fn resolve_produces_empty_clause_from_direct_contradiction() {
    let fx = fixture();
    let mut arena = TermArena::new();
    let mut store = ClauseStore::new();
    let x = arena.mk_var(0);
    let a = arena.mk_app(fx.a, &[]);

    // C1: P(X)   C2: ~P(a)
    let c1 = store.insert(
        vec![Literal::positive(fx.p, vec![x])],
        InferenceInfo::input(),
        &arena
    );
    let c2 = store.insert(
        vec![Literal::negative(fx.p, vec![a])],
        InferenceInfo::input(),
        &arena
    );

    let mut var_gen = VarGen::new();
    let results = resolve(store.get(c1), store.get(c2), &mut var_gen, &mut arena);

    assert_eq!(results.len(), 1);
    let (literals, info) = &results[0];
    assert!(literals.is_empty(), "P(X) resolution with ~P(a) must produce an empty clause");
    assert!(matches!(info.rule, InferenceRule::Resolution { .. }));
    assert_eq!(info.parents, vec![c1, c2]);
}

#[test]
fn resolve_keeps_remaining_literals_with_substitution_applied() {
    let fx = fixture();
    let mut arena = TermArena::new();
    let mut store = ClauseStore::new();
    let x = arena.mk_var(0);
    let a = arena.mk_app(fx.a, &[]);
    let b = arena.mk_app(fx.b, &[]);

    // C1: P(X) | Q(X)      C2: ~P(a) | R(b)
    // Resolution on the complement pair P(X)/~P(a) (X=a) -> remaining: Q(a) | R(b)
    let c1 = store.insert(
        vec![Literal::positive(fx.p, vec![x]), Literal::positive(fx.q, vec![x])],
        InferenceInfo::input(),
        &arena
    );
    let c2 = store.insert(
        vec![Literal::negative(fx.p, vec![a]), Literal::positive(fx.r, vec![b])],
        InferenceInfo::input(),
        &arena
    );

    let mut var_gen = VarGen::new();
    let results = resolve(store.get(c1), store.get(c2), &mut var_gen, &mut arena);

    assert_eq!(results.len(), 1, "there is only one complementary literal pair (P/~P)");
    let (literals, _) = &results[0];
    assert_eq!(literals.len(), 2);

    // The resolvent should be fully ground: Q(a) and R(b).
    let mut symbols_used: Vec<String> = literals
        .iter()
        .map(|l| l.display(&arena, &fx.symbols))
        .collect();
    symbols_used.sort();
    assert_eq!(symbols_used, vec!["Q(a)".to_string(), "R(b)".to_string()]);
}

#[test]
fn resolve_finds_all_complementary_pairs() {
    let fx = fixture();
    let mut arena = TermArena::new();
    let mut store = ClauseStore::new();
    let a = arena.mk_app(fx.a, &[]);
    let c = arena.mk_app(fx.c, &[]);

    // C1: P(a) | Q(c)      C2: ~P(a) | ~Q(c)
    // Two independent complementary pairs -> must produce 2 resolvents.
    let c1 = store.insert(
        vec![Literal::positive(fx.p, vec![a]), Literal::positive(fx.q, vec![c])],
        InferenceInfo::input(),
        &arena
    );
    let c2 = store.insert(
        vec![Literal::negative(fx.p, vec![a]), Literal::negative(fx.q, vec![c])],
        InferenceInfo::input(),
        &arena
    );

    let mut var_gen = VarGen::new();
    let results = resolve(store.get(c1), store.get(c2), &mut var_gen, &mut arena);

    assert_eq!(
        results.len(),
        2,
        "there must be 2 resolvents: from pair P/~P and from pair Q/~Q"
    );
    for (literals, _) in &results {
        assert_eq!(
            literals.len(),
            2,
            "each resolvent leaves 2 literals (one from each clause)"
        );
    }
}

#[test]
fn resolve_returns_empty_when_no_complementary_literals() {
    let fx = fixture();
    let mut arena = TermArena::new();
    let mut store = ClauseStore::new();
    let a = arena.mk_app(fx.a, &[]);
    let b = arena.mk_app(fx.b, &[]);

    // C1: P(a)   C2: Q(b) -- completely different predicates, none are complementary.
    let c1 = store.insert(
        vec![Literal::positive(fx.p, vec![a])],
        InferenceInfo::input(),
        &arena
    );
    let c2 = store.insert(
        vec![Literal::positive(fx.q, vec![b])],
        InferenceInfo::input(),
        &arena
    );

    let mut var_gen = VarGen::new();
    let results = resolve(store.get(c1), store.get(c2), &mut var_gen, &mut arena);

    assert!(results.is_empty());
}

#[test]
fn resolve_fails_pair_when_unification_fails_but_tries_others() {
    let fx = fixture();
    let mut arena = TermArena::new();
    let mut store = ClauseStore::new();
    let a = arena.mk_app(fx.a, &[]);
    let b = arena.mk_app(fx.b, &[]);

    // C1: P(a) | Q(a)     C2: ~P(b) | ~Q(a)
    // Pair P(a)/~P(b): predicates match but args (a vs b) fail to unify -> no resolvent produced.
// Pair Q(a)/~Q(a): succeeds -> produces a resolvent.
    let c1 = store.insert(
        vec![Literal::positive(fx.p, vec![a]), Literal::positive(fx.q, vec![a])],
        InferenceInfo::input(),
        &arena
    );
    let c2 = store.insert(
        vec![Literal::negative(fx.p, vec![b]), Literal::negative(fx.q, vec![a])],
        InferenceInfo::input(),
        &arena
    );

    let mut var_gen = VarGen::new();
    let results = resolve(store.get(c1), store.get(c2), &mut var_gen, &mut arena);

    assert_eq!(results.len(), 1, "only pair Q(a)/~Q(a) succeeds in unifying");
    let (literals, _) = &results[0];
    let mut rendered: Vec<String> = literals
        .iter()
        .map(|l| l.display(&arena, &fx.symbols))
        .collect();
    rendered.sort();
    assert_eq!(rendered, vec!["P(a)".to_string(), "~P(b)".to_string()]);
}

// ---------- factor ----------

#[test]
fn factor_merges_identical_ground_duplicate_literal() {
    let fx = fixture();
    let mut arena = TermArena::new();
    let mut store = ClauseStore::new();
    let a = arena.mk_app(fx.a, &[]);

    // C: P(a) | P(a)  -- exact duplicate literals
    let c = store.insert(
        vec![Literal::positive(fx.p, vec![a]), Literal::positive(fx.p, vec![a])],
        InferenceInfo::input(),
        &arena
    );

    let results = factor(store.get(c), &mut arena);
    assert_eq!(results.len(), 1);
    let (literals, info) = &results[0];
    assert_eq!(literals.len(), 1, "two identical P(a) literals must be merged into one single literal");
    assert_eq!(literals[0].display(&arena, &fx.symbols), "P(a)");
    assert!(matches!(info.rule, InferenceRule::Factoring { .. }));
    assert_eq!(info.parents, vec![c]);
}

#[test]
fn factor_unifies_variable_with_constant_across_two_literals() {
    let fx = fixture();
    let mut arena = TermArena::new();
    let mut store = ClauseStore::new();
    let x = arena.mk_var(0);
    let a = arena.mk_app(fx.a, &[]);
    let b = arena.mk_app(fx.b, &[]);

    // C: P(X) | P(a) | Q(b)
    // P(X) & P(a) can be unified (X=a) -> result: P(a) | Q(b)
    let c = store.insert(
        vec![
            Literal::positive(fx.p, vec![x]),
            Literal::positive(fx.p, vec![a]),
            Literal::positive(fx.q, vec![b])
        ],
        InferenceInfo::input(),
        &arena
    );

    let results = factor(store.get(c), &mut arena);
    assert_eq!(results.len(), 1);
    let (literals, _) = &results[0];
    assert_eq!(literals.len(), 2);

    let mut rendered: Vec<String> = literals
        .iter()
        .map(|l| l.display(&arena, &fx.symbols))
        .collect();
    rendered.sort();
    assert_eq!(rendered, vec!["P(a)".to_string(), "Q(b)".to_string()]);
}

#[test]
fn factor_returns_empty_when_no_mergeable_literals() {
    let fx = fixture();
    let mut arena = TermArena::new();
    let mut store = ClauseStore::new();
    let a = arena.mk_app(fx.a, &[]);
    let b = arena.mk_app(fx.b, &[]);

    // C: P(a) | Q(b) -- different predicates, nothing can be merged.
    let c = store.insert(
        vec![Literal::positive(fx.p, vec![a]), Literal::positive(fx.q, vec![b])],
        InferenceInfo::input(),
        &arena
    );

    let results = factor(store.get(c), &mut arena);
    assert!(results.is_empty());
}

#[test]
fn factor_ignores_pair_with_different_polarity() {
    let fx = fixture();
    let mut arena = TermArena::new();
    let mut store = ClauseStore::new();
    let a = arena.mk_app(fx.a, &[]);

    // C: P(a) | ~P(a) -- same predicate & args but different polarity, NOT a factoring candidate.
    let c = store.insert(
        vec![Literal::positive(fx.p, vec![a]), Literal::negative(fx.p, vec![a])],
        InferenceInfo::input(),
        &arena
    );

    let results = factor(store.get(c), &mut arena);
    assert!(
        results.is_empty(),
        "different polarities must not be factored (that is the job of Resolution, not Factoring)"
    );
}
