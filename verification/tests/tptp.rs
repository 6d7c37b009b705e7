use bear::clause::InferenceRule;
use bear::saturation::{Saturation, SaturationResult};
use bear::term::SymbolTable;

#[test]
fn tptp_parses_single_ground_positive_literal() {
    let mut arena = bear::term::TermArena::new();
    let mut symbols = SymbolTable::new();
    let clauses = bear::tptp
        ::parse_tptp_problem("cnf(a1, axiom, man(socrates)).", &mut arena, &mut symbols)
        .unwrap();

    assert_eq!(clauses.len(), 1);
    assert_eq!(clauses[0].len(), 1);
    assert!(clauses[0][0].is_positive());
    assert_eq!(clauses[0][0].display(&arena, &symbols), "man(socrates)");
}

#[test]
fn parses_negated_literal_via_tilde() {
    let mut arena = bear::term::TermArena::new();
    let mut symbols = SymbolTable::new();
    let clauses = bear::tptp
        ::parse_tptp_problem(
            "cnf(neg, negated_conjecture, ~mortal(socrates)).",
            &mut arena,
            &mut symbols
        )
        .unwrap();

    assert!(clauses[0][0].is_negative());
    assert_eq!(clauses[0][0].display(&arena, &symbols), "~mortal(socrates)");
}

#[test]
fn parses_disjunction_with_parens() {
    let mut arena = bear::term::TermArena::new();
    let mut symbols = SymbolTable::new();
    let clauses = bear::tptp
        ::parse_tptp_problem(
            "cnf(ax1, axiom, ( ~man(X) | mortal(X) )).",
            &mut arena,
            &mut symbols
        )
        .unwrap();

    let clause = &clauses[0];
    assert_eq!(clause.len(), 2);
    assert_eq!(clause[0].display(&arena, &symbols), "~man(X0)");
    assert_eq!(clause[1].display(&arena, &symbols), "mortal(X0)");
}

#[test]
fn parses_disjunction_without_parens() {
    let mut arena = bear::term::TermArena::new();
    let mut symbols = SymbolTable::new();
    let clauses = bear::tptp
        ::parse_tptp_problem("cnf(ax1, axiom, ~man(X) | mortal(X)).", &mut arena, &mut symbols)
        .unwrap();
    assert_eq!(clauses[0].len(), 2);
}

#[test]
fn tptp_parses_propositional_literal_without_parens() {
    let mut arena = bear::term::TermArena::new();
    let mut symbols = SymbolTable::new();
    let clauses = bear::tptp
        ::parse_tptp_problem("cnf(c1, axiom, p | ~q).", &mut arena, &mut symbols)
        .unwrap();
    assert_eq!(clauses[0][0].display(&arena, &symbols), "p");
    assert_eq!(clauses[0][1].display(&arena, &symbols), "~q");
}

#[test]
fn tptp_parses_nested_function_application() {
    let mut arena = bear::term::TermArena::new();
    let mut symbols = SymbolTable::new();
    let clauses = bear::tptp
        ::parse_tptp_problem("cnf(c1, axiom, p(f(X, a))).", &mut arena, &mut symbols)
        .unwrap();
    assert_eq!(clauses[0][0].display(&arena, &symbols), "p(f(X0, a))");
}

#[test]
fn comments_are_ignored_both_styles() {
    let mut arena = bear::term::TermArena::new();
    let mut symbols = SymbolTable::new();
    let input =
        "
    % full-line comment
    /* block
       comment */
    cnf(c1, axiom, man(socrates)). % trailing comment
    ";
    let clauses = bear::tptp::parse_tptp_problem(input, &mut arena, &mut symbols).unwrap();
    assert_eq!(clauses.len(), 1);
}

#[test]
fn multiple_statements_parsed_in_order() {
    let mut arena = bear::term::TermArena::new();
    let mut symbols = SymbolTable::new();
    let input = "cnf(c1, axiom, p(a)).\ncnf(c2, axiom, q(b)).\ncnf(c3, axiom, r(c)).";
    let clauses = bear::tptp::parse_tptp_problem(input, &mut arena, &mut symbols).unwrap();
    assert_eq!(clauses.len(), 3);
}

#[test]
fn tptp_variable_scope_is_independent_across_clauses() {
    let mut arena = bear::term::TermArena::new();
    let mut symbols = SymbolTable::new();
    let input = "cnf(c1, axiom, p(X)).\ncnf(c2, axiom, q(X)).";
    let clauses = bear::tptp::parse_tptp_problem(input, &mut arena, &mut symbols).unwrap();
    assert!(matches!(arena.get(clauses[0][0].args[0]), bear::term::TermData::Var(_)));
    assert!(matches!(arena.get(clauses[1][0].args[0]), bear::term::TermData::Var(_)));
}

#[test]
fn error_on_equality_literal() {
    let mut arena = bear::term::TermArena::new();
    let mut symbols = SymbolTable::new();
    let err = bear::tptp
        ::parse_tptp_problem("cnf(c1, axiom, a = b).", &mut arena, &mut symbols)
        .unwrap_err();
    assert!(err.message.contains("equality") || err.message.contains("paramodulation"));
}

#[test]
fn error_on_missing_trailing_dot() {
    let mut arena = bear::term::TermArena::new();
    let mut symbols = SymbolTable::new();
    let err = bear::tptp
        ::parse_tptp_problem("cnf(c1, axiom, p(a))", &mut arena, &mut symbols)
        .unwrap_err();
    assert!(err.message.contains("'.'"));
}

#[test]
fn error_on_variable_used_as_predicate_name() {
    let mut arena = bear::term::TermArena::new();
    let mut symbols = SymbolTable::new();
    let err = bear::tptp
        ::parse_tptp_problem("cnf(c1, axiom, X(a)).", &mut arena, &mut symbols)
        .unwrap_err();
    assert!(err.message.contains("variable"));
}

#[test]
fn tptp_parsed_problem_can_be_proved_end_to_end() {
    let mut symbols = SymbolTable::new();
    let mut sat = Saturation::new();

    let input =
        "
    cnf(ax1, axiom, ~man(X) | mortal(X)).
    cnf(ax2, axiom, man(socrates)).
    cnf(goal, negated_conjecture, ~mortal(socrates)).
    ";
    let ids = sat.add_parsed_tptp_problem(input, &mut symbols).unwrap();
    assert_eq!(ids.len(), 3);

    let result = sat.run(1000);
    match result {
        SaturationResult::Proved(id) => {
            let trace = sat.proof_trace(id);
            assert!(trace.len() >= 4);
            for input_id in &ids {
                assert!(trace.contains(input_id));
            }
        }
        other => panic!("should be Proved, but got {other:?}"),
    }
}

#[test]
fn tptp_parsed_unsatisfiable_ground_problem_is_proved() {
    let mut symbols = SymbolTable::new();
    let mut sat = Saturation::new();

    let ids = sat
        .add_parsed_tptp_problem("cnf(c1, axiom, p(a)).\ncnf(c2, axiom, ~p(a)).", &mut symbols)
        .unwrap();
    assert_eq!(ids.len(), 2);

    let result = sat.run(1000);
    let SaturationResult::Proved(proved_id) = result else {
        panic!("should be Proved, but got {result:?}");
    };
    let clause = sat.clause_store().get(proved_id);
    assert!(clause.is_empty());
    assert!(matches!(clause.inference.rule, InferenceRule::Resolution { .. }));
}
