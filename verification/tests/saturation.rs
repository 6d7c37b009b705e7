use bear::clause::Literal;
use bear::saturation::{Saturation, SaturationResult};
use bear::term::SymbolTable;

#[test]
fn trivial_contradiction_is_proved() {
    let mut symbols = SymbolTable::new();
    let p = symbols.intern("P");
    let a = symbols.intern("a");

    let mut sat = Saturation::new();
    let a_term = sat.arena_mut().mk_app(a, &[]);

    sat.add_input_clause(vec![Literal::positive(p, vec![a_term])]);
    sat.add_input_clause(vec![Literal::negative(p, vec![a_term])]);

    let result = sat.run(1000);
    assert!(matches!(result, SaturationResult::Proved(_)));
}

#[test]
fn proof_requiring_unification_of_variable_with_constant() {
    let mut symbols = SymbolTable::new();
    let p = symbols.intern("P");
    let a = symbols.intern("a");

    let mut sat = Saturation::new();
    let x = sat.arena_mut().mk_var(0);
    let a_term = sat.arena_mut().mk_app(a, &[]);

    // C1: P(X)   C2: ~P(a) -- requires unifying X=a, not an identical ground literal.
    sat.add_input_clause(vec![Literal::positive(p, vec![x])]);
    sat.add_input_clause(vec![Literal::negative(p, vec![a_term])]);

    let result = sat.run(1000);
    assert!(matches!(result, SaturationResult::Proved(_)));
}

#[test]
fn syllogism_socrates_is_mortal_multi_step_proof() {
    // Classic: "All men are mortal. Socrates is a man. Therefore Socrates is mortal."
    // Proven via refutation: negate the goal, find a contradiction.
    //
    // CNF:
    //   C1: ~Man(X) | Mortal(X)     [Man(x) -> Mortal(x)]
    //   C2: Man(socrates)
    //   C3: ~Mortal(socrates)       [negated goal]
    //
    // Proof requires 2 chained resolution steps:
    //   resolve(C1, C2) -> Mortal(socrates)
    //   resolve(Mortal(socrates), C3) -> ⊥

    let mut symbols = SymbolTable::new();
    let man = symbols.intern("Man");
    let mortal = symbols.intern("Mortal");
    let socrates = symbols.intern("socrates");

    let mut sat = Saturation::new();
    let x = sat.arena_mut().mk_var(0);
    let socrates_term = sat.arena_mut().mk_app(socrates, &[]);

    let c1 = sat.add_input_clause(
        vec![Literal::negative(man, vec![x]), Literal::positive(mortal, vec![x])]
    );
    let c2 = sat.add_input_clause(vec![Literal::positive(man, vec![socrates_term])]);
    let c3 = sat.add_input_clause(vec![Literal::negative(mortal, vec![socrates_term])]);

    let result = sat.run(1000);
    let proved_id = match result {
        SaturationResult::Proved(id) => id,
        other => panic!("should be Proved, but got {other:?}"),
    };

    let trace = sat.proof_trace(proved_id);
    // All three input clauses must appear in the proof trace (all of them are actually
    // used to reach the contradiction).
    assert!(trace.contains(&c1));
    assert!(trace.contains(&c2));
    assert!(trace.contains(&c3));
    // The empty clause (final result) appears last in the trace (topological order).
    assert_eq!(*trace.last().unwrap(), proved_id);
    // This proof requires >3 clauses in the trace (3 inputs + 1 intermediate result + empty clause).
    assert!(trace.len() >= 4, "trace: {trace:?}");
}

#[test]
fn independent_unit_clause_saturates_without_contradiction() {
    let mut symbols = SymbolTable::new();
    let p = symbols.intern("P");
    let a = symbols.intern("a");

    let mut sat = Saturation::new();
    let a_term = sat.arena_mut().mk_app(a, &[]);

    // Only one clause, nothing to resolve -- no contradiction
    // can possibly be found.
    sat.add_input_clause(vec![Literal::positive(p, vec![a_term])]);

    let result = sat.run(1000);
    assert_eq!(result, SaturationResult::Saturated);
}

#[test]
fn clause_limit_stops_before_proving() {
    let mut symbols = SymbolTable::new();
    let p = symbols.intern("P");
    let q = symbols.intern("Q");
    let a = symbols.intern("a");
    let b = symbols.intern("b");

    let mut sat = Saturation::new();
    let a_term = sat.arena_mut().mk_app(a, &[]);
    let b_term = sat.arena_mut().mk_app(b, &[]);

    sat.add_input_clause(
        vec![Literal::positive(p, vec![a_term]), Literal::positive(q, vec![b_term])]
    );
    sat.add_input_clause(vec![Literal::negative(p, vec![a_term])]);
    sat.add_input_clause(vec![Literal::negative(q, vec![b_term])]);

    // max_clauses is extremely small -- the limit is already exceeded as soon as
    // the three input clauses are inserted, before the given-clause loop even has a chance to run.
    let result = sat.run(1);
    assert_eq!(result, SaturationResult::ClauseLimitReached);
}

#[test]
fn multi_step_chain_resolution_via_intermediate_clause() {
    // C1: P(a) | Q(b)    C2: ~P(a)    C3: ~Q(b)
    // resolve(C1,C2) -> Q(b); resolve(Q(b), C3) -> ⊥
    let mut symbols = SymbolTable::new();
    let p = symbols.intern("P");
    let q = symbols.intern("Q");
    let a = symbols.intern("a");
    let b = symbols.intern("b");

    let mut sat = Saturation::new();
    let a_term = sat.arena_mut().mk_app(a, &[]);
    let b_term = sat.arena_mut().mk_app(b, &[]);

    sat.add_input_clause(
        vec![Literal::positive(p, vec![a_term]), Literal::positive(q, vec![b_term])]
    );
    sat.add_input_clause(vec![Literal::negative(p, vec![a_term])]);
    sat.add_input_clause(vec![Literal::negative(q, vec![b_term])]);

    let result = sat.run(1000);
    assert!(matches!(result, SaturationResult::Proved(_)));
}
