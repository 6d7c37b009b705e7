//! Whole proof searches with known outcomes.
use bear::clause::{ClauseId, InferenceRule, Literal};
use bear::proof_dag::ProofDag;
use bear::saturation::{Saturation, SaturationResult};
use bear::term::SymbolTable;

fn search(input: &str) -> (Saturation, SymbolTable) {
    let mut symbols = SymbolTable::new();
    let mut sat = Saturation::new();
    sat.add_parsed_problem(input, &mut symbols).unwrap();
    (sat, symbols)
}

fn proved(sat: &mut Saturation, max_clauses: usize) -> ClauseId {
    match sat.run(max_clauses) {
        SaturationResult::Proved(id) => id,
        other => panic!("no proof: {other:?}"),
    }
}

fn shown(sat: &Saturation, symbols: &SymbolTable, id: ClauseId) -> String {
    sat.clause_store().get(id).display(sat.arena(), symbols)
}

fn rule_text(sat: &Saturation, id: ClauseId) -> String {
    format!("{:?}", sat.clause_store().get(id).inference.rule)
}

const SOCRATES: &str = "; problems/socrates.sexp
(clause (not (man X)) (mortal X))   ; man(x) -> mortal(x)
(clause (man socrates))
(clause (not (mortal socrates)))    ; negated goal
";

#[test]
fn socrates_has_the_known_trace() {
    let (mut sat, symbols) = search(SOCRATES);
    assert_eq!(shown(&sat, &symbols, 0), "~man(X0) | mortal(X0)");
    assert_eq!(shown(&sat, &symbols, 1), "man(socrates)");
    assert_eq!(shown(&sat, &symbols, 2), "~mortal(socrates)");

    let id = proved(&mut sat, 10_000);
    assert_eq!(id, 5);
    assert_eq!(sat.proof_trace(id), vec![1, 0, 3, 2, 5]);
    assert_eq!(shown(&sat, &symbols, 3), "mortal(socrates)");
    assert_eq!(shown(&sat, &symbols, 5), "⊥");
    assert_eq!(sat.clause_store().get(3).inference.parents, vec![1, 0]);
    assert_eq!(sat.clause_store().get(5).inference.parents, vec![3, 2]);
}

#[test]
fn a_proof_stops_the_search_at_once() {
    let (mut sat, symbols) = search(SOCRATES);
    assert_eq!(sat.run(10_000), SaturationResult::Proved(5));
    // The clause being processed is neither active nor passive, and the empty
    // clause is not passive.
    assert_eq!(sat.clause_store().len(), 6);
    assert_eq!(sat.active_len(), 3);
    assert_eq!(sat.passive_len(), 1);
    assert_eq!(shown(&sat, &symbols, 4), "~man(socrates)");
    let weights: Vec<u32> = sat.clause_store().iter().map(|c| c.weight).collect();
    assert_eq!(weights, vec![4, 2, 2, 2, 2, 0]);
}

#[test]
fn socrates_from_tptp_has_the_known_unifiers() {
    let mut symbols = SymbolTable::new();
    let mut sat = Saturation::new();
    let input = "
        cnf(ax1, axiom, ~man(X) | mortal(X)).
        cnf(ax2, axiom, man(socrates)).
        cnf(goal, negated_conjecture, ~mortal(socrates)).
    ";
    assert_eq!(sat.add_parsed_tptp_problem(input, &mut symbols).unwrap(), vec![0, 1, 2]);
    let id = proved(&mut sat, 10_000);
    assert_eq!(sat.proof_trace(id), vec![1, 0, 3, 2, 5]);
    assert_eq!(
        rule_text(&sat, 3),
        "Resolution { left: 1, left_lit: 0, right: 0, right_lit: 0, unifier: Substitution { bindings: {1: 1} } }"
    );
    assert_eq!(
        rule_text(&sat, 5),
        "Resolution { left: 3, left_lit: 0, right: 2, right_lit: 0, unifier: Substitution { bindings: {} } }"
    );
}

#[test]
fn barbara_chain_has_the_known_trace() {
    let (mut sat, symbols) = search(
        "(clause (not (man X)) (mortal X))
         (clause (not (mortal X)) (animal X))
         (clause (man socrates))
         (clause (not (animal socrates)))",
    );
    let id = proved(&mut sat, 10_000);
    assert_eq!(sat.proof_trace(id), vec![3, 1, 6, 2, 0, 5, 11]);
    assert_eq!(shown(&sat, &symbols, 6), "~mortal(socrates)");
    assert_eq!(shown(&sat, &symbols, 5), "mortal(socrates)");
    assert_eq!(
        rule_text(&sat, 6),
        "Resolution { left: 3, left_lit: 0, right: 1, right_lit: 1, unifier: Substitution { bindings: {6: 1} } }"
    );
    assert_eq!(
        rule_text(&sat, 5),
        "Resolution { left: 2, left_lit: 0, right: 0, right_lit: 0, unifier: Substitution { bindings: {3: 1} } }"
    );
    assert_eq!(
        rule_text(&sat, 11),
        "Resolution { left: 6, left_lit: 0, right: 5, right_lit: 0, unifier: Substitution { bindings: {} } }"
    );
}

#[test]
fn propositional_chain_has_the_known_trace() {
    let (mut sat, symbols) = search(
        "(clause (not p) q)
         (clause (not q) r)
         (clause p)
         (clause (not r))",
    );
    assert_eq!(shown(&sat, &symbols, 0), "~p | q");
    let id = proved(&mut sat, 10_000);
    assert_eq!(sat.proof_trace(id), vec![3, 1, 6, 2, 0, 5, 11]);
    assert_eq!(shown(&sat, &symbols, 6), "~q");
    assert_eq!(sat.clause_store().get(11).inference.parents, vec![6, 5]);
}

const PELLETIER_43: &str = "
    (clause (not (q X Y)) (not (p Z X)) (p Z Y))
    (clause (not (q X Y)) (not (p Z Y)) (p Z X))
    (clause (q X Y) (p (f X Y) X) (p (f X Y) Y))
    (clause (q X Y) (not (p (f X Y) Y)) (not (p (f X Y) X)))
    (clause (q a b))
    (clause (not (q b a)) (q b c))
    (clause (not (q b a)) (q a c))
    (clause (not (q b a)) (not (q b a)))
";

#[test]
fn pelletier_43_runs_into_its_limit() {
    let (mut sat, symbols) = search(PELLETIER_43);
    assert_eq!(shown(&sat, &symbols, 0), "~q(X0, X1) | ~p(X2, X0) | p(X2, X1)");
    assert_eq!(shown(&sat, &symbols, 2), "q(X0, X1) | p(f(X0, X1), X0) | p(f(X0, X1), X1)");
    assert_eq!(shown(&sat, &symbols, 7), "~q(b, a) | ~q(b, a)");
    assert_eq!(sat.run(300), SaturationResult::ClauseLimitReached);
    assert!(sat.clause_store().len() >= 300);
}

#[test]
fn clauses_beyond_the_limit_come_from_one_clause() {
    let (mut sat, _) = search(PELLETIER_43);
    let limit = 100;
    assert_eq!(sat.run(limit), SaturationResult::ClauseLimitReached);
    let mut givens: Vec<ClauseId> = Vec::new();
    for c in sat.clause_store().iter().skip(limit - 1) {
        match &c.inference.rule {
            InferenceRule::Resolution { left, .. } => givens.push(*left),
            InferenceRule::Factoring { parent, .. } => givens.push(*parent),
            other => panic!("underived clause: {other:?}"),
        }
    }
    assert!(!givens.is_empty());
    assert!(givens.iter().all(|g| *g == givens[0]));
}

#[test]
fn a_reached_limit_leaves_the_search_as_it_was() {
    let (mut sat, _) = search(SOCRATES);
    assert_eq!(sat.run(3), SaturationResult::ClauseLimitReached);
    assert_eq!(sat.clause_store().len(), 3);
    assert_eq!(sat.active_len(), 0);
    assert_eq!(sat.passive_len(), 3);
    // The search can go on with a larger limit.
    assert_eq!(sat.run(10_000), SaturationResult::Proved(5));
}

#[test]
fn a_consistent_problem_is_saturated() {
    let (mut sat, _) = search("(clause (not (man X)) (mortal X)) (clause (man socrates))");
    assert_eq!(sat.run(1000), SaturationResult::Saturated);
    assert_eq!(sat.passive_len(), 0);
    assert_eq!(sat.active_len(), sat.clause_store().len());
    assert_eq!(sat.clause_store().len(), 3);
    assert!(sat.clause_store().iter().all(|c| !c.is_empty()));
}

#[test]
fn an_empty_search_is_saturated() {
    let mut sat = Saturation::default();
    assert_eq!(sat.run(1), SaturationResult::Saturated);
    assert_eq!(sat.run(0), SaturationResult::ClauseLimitReached);
}

#[test]
fn an_empty_input_clause_is_a_proof() {
    let (mut sat, _) = search("(clause p) (clause)");
    assert_eq!(sat.run(1000), SaturationResult::Proved(1));
    assert_eq!(sat.proof_trace(1), vec![1]);
}

#[test]
fn clauses_are_processed_in_the_order_of_their_ids() {
    let (mut sat, _) = search(
        "(clause (not (man X)) (mortal X))
         (clause (not (mortal X)) (animal X))
         (clause (man socrates))",
    );
    assert_eq!(sat.run(1000), SaturationResult::Saturated);
    let mut last: (i64, i64, usize, usize) = (-1, -1, 0, 0);
    for c in sat.clause_store().iter() {
        let key = match &c.inference.rule {
            InferenceRule::Resolution { left, left_lit, right, right_lit, .. } => {
                (*left as i64, *right as i64, *left_lit, *right_lit)
            }
            InferenceRule::Factoring { parent, lit_a, lit_b, .. } => {
                (*parent as i64, -1, *lit_a, *lit_b)
            }
            _ => continue,
        };
        assert!(last < key, "{last:?} before {key:?}");
        last = key;
    }
    assert!(last.0 >= 0);
}

#[test]
fn factoring_is_needed_for_a_proof() {
    // P(X) | P(Y) and ~P(X) | ~P(Y): without factoring no empty clause.
    let (mut sat, symbols) = search("(clause (p X) (p Y)) (clause (not (p X)) (not (p Y)))");
    let id = proved(&mut sat, 1000);
    assert_eq!(shown(&sat, &symbols, id), "⊥");
    let trace = sat.proof_trace(id);
    assert!(trace.iter().any(|c| matches!(
        sat.clause_store().get(*c).inference.rule,
        InferenceRule::Factoring { .. }
    )));
}

#[test]
fn input_can_be_added_after_a_run() {
    let mut symbols = SymbolTable::new();
    let mut sat = Saturation::new();
    sat.add_parsed_problem("(clause (p a))", &mut symbols).unwrap();
    assert_eq!(sat.run(1000), SaturationResult::Saturated);
    let ids = sat.add_parsed_problem("(clause (not (p a)))", &mut symbols).unwrap();
    assert_eq!(ids, vec![1]);
    assert_eq!(sat.passive_len(), 1);
    assert_eq!(sat.run(1000), SaturationResult::Proved(2));
}

#[test]
fn a_reading_error_adds_no_clause() {
    let mut symbols = SymbolTable::new();
    let mut sat = Saturation::new();
    assert!(sat.add_parsed_problem("(clause (p a))\n(clause (q (X a)))", &mut symbols).is_err());
    assert_eq!(sat.clause_store().len(), 0);
    assert_eq!(sat.passive_len(), 0);
    // Names before the error are known.
    assert_eq!(symbols.len(), 3);
    assert_eq!(symbols.name(2), "q");
    assert!(sat
        .add_parsed_tptp_problem("cnf(a, axiom, p(b)). cnf(b, axiom, p(", &mut symbols)
        .is_err());
    assert_eq!(sat.clause_store().len(), 0);
}

#[test]
fn clauses_built_by_hand_are_proved() {
    let mut symbols = SymbolTable::new();
    let man = symbols.intern("Man");
    let mortal = symbols.intern("Mortal");
    let socrates = symbols.intern("socrates");
    let mut sat = Saturation::new();
    let x = sat.arena_mut().mk_var(0);
    let s = sat.arena_mut().mk_const(socrates);
    let c1 = sat.add_input_clause(vec![
        Literal::negative(man, vec![x]),
        Literal::positive(mortal, vec![x]),
    ]);
    let c2 = sat.add_input_clause(vec![Literal::positive(man, vec![s])]);
    let c3 = sat.add_input_clause(vec![Literal::negative(mortal, vec![s])]);
    assert_eq!((c1, c2, c3), (0, 1, 2));
    assert_eq!(sat.clause_store().get(c1).weight, 4);
    assert_eq!(sat.run(10_000), SaturationResult::Proved(5));
}

#[test]
fn a_proved_search_has_a_certificate() {
    let (mut sat, _) = search(SOCRATES);
    let id = proved(&mut sat, 10_000);
    let mut dag = ProofDag::new();
    for c in sat.clause_store().iter() {
        dag.insert(c.clone()).unwrap();
    }
    assert!(dag.validate().is_ok());
    assert_eq!(dag.find_bottom(), Some(id));
    let ids: Vec<ClauseId> = dag.certificate().unwrap().iter().map(|c| c.id).collect();
    assert_eq!(ids, sat.proof_trace(id));
}
