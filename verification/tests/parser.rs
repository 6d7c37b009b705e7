use bear::clause::InferenceRule;
use bear::saturation::{Saturation, SaturationResult};
use bear::term::{SymbolTable, TermArena, TermData};

#[test]
fn parser_parses_single_ground_positive_literal() {
    let mut arena = TermArena::new();
    let mut symbols = SymbolTable::new();
    let clauses = bear::parser
        ::parse_problem("(clause (man socrates))", &mut arena, &mut symbols)
        .unwrap();

    assert_eq!(clauses.len(), 1);
    let clause = &clauses[0];
    assert_eq!(clause.len(), 1);
    assert!(clause[0].is_positive());
    assert_eq!(clause[0].display(&arena, &symbols), "man(socrates)");
}

#[test]
fn parses_negative_literal_via_not() {
    let mut arena = TermArena::new();
    let mut symbols = SymbolTable::new();
    let clauses = bear::parser
        ::parse_problem("(clause (not (mortal socrates)))", &mut arena, &mut symbols)
        .unwrap();

    let clause = &clauses[0];
    assert!(clause[0].is_negative());
    assert_eq!(clause[0].display(&arena, &symbols), "~mortal(socrates)");
}

#[test]
fn parser_parses_propositional_literal_without_parens() {
    let mut arena = TermArena::new();
    let mut symbols = SymbolTable::new();
    let clauses = bear::parser
        ::parse_problem("(clause p (not q))", &mut arena, &mut symbols)
        .unwrap();

    let clause = &clauses[0];
    assert_eq!(clause.len(), 2);
    assert_eq!(clause[0].display(&arena, &symbols), "p");
    assert_eq!(clause[1].display(&arena, &symbols), "~q");
}

#[test]
fn empty_clause_form_parses_to_bottom() {
    let mut arena = TermArena::new();
    let mut symbols = SymbolTable::new();
    let clauses = bear::parser::parse_problem("(clause)", &mut arena, &mut symbols).unwrap();

    assert_eq!(clauses.len(), 1);
    assert!(clauses[0].is_empty());
}

#[test]
fn variable_is_consistent_within_one_clause() {
    let mut arena = TermArena::new();
    let mut symbols = SymbolTable::new();
    let clauses = bear::parser
        ::parse_problem("(clause (not (man X)) (mortal X))", &mut arena, &mut symbols)
        .unwrap();

    let clause = &clauses[0];
    assert_eq!(clause.len(), 2);
    // Both literals use the same variable X -> argument TermIds must be identical.
    assert_eq!(clause[0].args[0], clause[1].args[0]);
    assert!(matches!(arena.get(clause[0].args[0]), TermData::Var(_)));
}

#[test]
fn parser_variable_scope_is_independent_across_clauses() {
    let mut arena = TermArena::new();
    let mut symbols = SymbolTable::new();
    let clauses = bear::parser
        ::parse_problem("(clause (p X))\n(clause (q X))", &mut arena, &mut symbols)
        .unwrap();

    // X in the first clause and X in the second clause do NOT have to be the same TermId
    // (variable scope is per-clause, each starting numbering from 0 again).
    // What matters: each remains a valid variable.
    assert!(matches!(arena.get(clauses[0][0].args[0]), TermData::Var(_)));
    assert!(matches!(arena.get(clauses[1][0].args[0]), TermData::Var(_)));
}

#[test]
fn parser_parses_nested_function_application() {
    let mut arena = TermArena::new();
    let mut symbols = SymbolTable::new();
    let clauses = bear::parser
        ::parse_problem("(clause (p (f X a)))", &mut arena, &mut symbols)
        .unwrap();

    let clause = &clauses[0];
    assert_eq!(clause[0].display(&arena, &symbols), "p(f(X0, a))");
}

#[test]
fn comments_and_extra_whitespace_are_ignored() {
    let mut arena = TermArena::new();
    let mut symbols = SymbolTable::new();
    let input =
        "
    ; this is a full-line comment
    (clause   (man socrates))   ; end-of-line comment as well
    ;(clause (not (man socrates))) -- this line is commented out, not parsed
";
    let clauses = bear::parser::parse_problem(input, &mut arena, &mut symbols).unwrap();
    assert_eq!(clauses.len(), 1);
}

#[test]
fn multiple_clauses_are_all_parsed_in_order() {
    let mut arena = TermArena::new();
    let mut symbols = SymbolTable::new();
    let input = "(clause (p a))\n(clause (q b))\n(clause (r c))";
    let clauses = bear::parser::parse_problem(input, &mut arena, &mut symbols).unwrap();
    assert_eq!(clauses.len(), 3);
}

// ---------- error cases ----------

#[test]
fn error_on_unbalanced_parens_missing_close() {
    let mut arena = TermArena::new();
    let mut symbols = SymbolTable::new();
    let err = bear::parser
        ::parse_problem("(clause (man socrates)", &mut arena, &mut symbols)
        .unwrap_err();
    assert!(err.message.contains("kurung") || err.message.contains("EOF"));
}

#[test]
fn error_on_unexpected_closing_paren() {
    let mut arena = TermArena::new();
    let mut symbols = SymbolTable::new();
    let err = bear::parser
        ::parse_problem("(clause (man socrates)))", &mut arena, &mut symbols)
        .unwrap_err();
    assert!(err.message.contains("')'"));
}

#[test]
fn error_when_top_level_form_missing_clause_keyword() {
    let mut arena = TermArena::new();
    let mut symbols = SymbolTable::new();
    let err = bear::parser
        ::parse_problem("(man socrates)", &mut arena, &mut symbols)
        .unwrap_err();
    assert!(err.message.contains("clause"));
}

#[test]
fn error_when_variable_used_as_predicate_name() {
    let mut arena = TermArena::new();
    let mut symbols = SymbolTable::new();
    // X starts with an uppercase letter -> treated as a variable, invalid as a predicate name.
    let err = bear::parser
        ::parse_problem("(clause (X a))", &mut arena, &mut symbols)
        .unwrap_err();
    assert!(err.message.contains("variable"));
}

#[test]
fn error_when_variable_used_as_function_name() {
    let mut arena = TermArena::new();
    let mut symbols = SymbolTable::new();
    let err = bear::parser
        ::parse_problem("(clause (p (X a)))", &mut arena, &mut symbols)
        .unwrap_err();
    assert!(err.message.contains("variable"));
}

#[test]
fn error_message_includes_line_number() {
    let mut arena = TermArena::new();
    let mut symbols = SymbolTable::new();
    let input = "(clause (man socrates))\n(clause (X a))"; // error on line 2
    let err = bear::parser::parse_problem(input, &mut arena, &mut symbols).unwrap_err();
    assert_eq!(err.line, 2);
}

// ---------- full integration: parse -> Saturation ----------

#[test]
fn parser_parsed_problem_can_be_proved_end_to_end() {
    let mut symbols = SymbolTable::new();
    let mut sat = Saturation::new();

    let input =
        "
    (clause (not (man X)) (mortal X))
    (clause (man socrates))
    (clause (not (mortal socrates)))
";
    let ids = sat.add_parsed_problem(input, &mut symbols).unwrap();
    assert_eq!(ids.len(), 3);

    let result = sat.run(1000);
    match result {
        SaturationResult::Proved(id) => {
            let trace = sat.proof_trace(id);
            assert!(trace.len() >= 4);
            // All 3 input clauses must be used in the proof.
            for input_id in &ids {
                assert!(trace.contains(input_id));
            }
        }
        other => panic!("should be Proved, but got {other:?}"),
    }
}

#[test]
fn parser_parsed_unsatisfiable_ground_problem_is_proved() {
    let mut symbols = SymbolTable::new();
    let mut sat = Saturation::new();

    let ids = sat
        .add_parsed_problem("(clause (p a))\n(clause (not (p a)))", &mut symbols)
        .unwrap();
    assert_eq!(ids.len(), 2);

    let result = sat.run(1000);
    let SaturationResult::Proved(proved_id) = result else {
        panic!("should be Proved, but got {result:?}");
    };
    let clause = sat.clause_store().get(proved_id);
    assert!(clause.is_empty());
    assert!(matches!(clause.inference.rule, InferenceRule::Resolution { .. }));
}
