//! The library's general properties, each on concrete values.
use std::collections::{BTreeSet, HashSet};

use bear::beardag::{used_symbol_ids, write_beardag};
use bear::clause::{Clause, ClauseStore, InferenceInfo, InferenceRule, Literal};
use bear::graph::{depth_first, find_cycle};
use bear::inference::{factor, rename_apart, resolve, VarGen};
use bear::parser::parse_problem;
use bear::proof_dag::{collect_used_term_ids, ProofDag};
use bear::saturation::{Saturation, SaturationResult};
use bear::term::{SymbolTable, TermArena, TermId};
use bear::tptp::parse_tptp_problem;
use bear::unify::{unify, unify_literals, unify_with_occurs_check, Substitution};

/// f(X, g(Y)) with the symbols f = 0, g = 1.
fn f_x_g_y(arena: &mut TermArena, x: u32, y: u32) -> TermId {
    let vx = arena.mk_var(x);
    let vy = arena.mk_var(y);
    let g = arena.mk_app(1, &[vy]);
    arena.mk_app(0, &[vx, g])
}

#[test]
fn equal_terms_have_equal_ids() {
    let mut arena = TermArena::new();
    let s = f_x_g_y(&mut arena, 0, 1);
    let n = arena.len();
    let t = f_x_g_y(&mut arena, 0, 1);
    assert_eq!(s, t);
    assert_eq!(arena.len(), n);
    let u = f_x_g_y(&mut arena, 1, 0);
    assert_ne!(s, u);
    assert_eq!(arena.size(s), 4);
    assert_eq!(arena.depth(s), 2);
}

#[test]
fn names_have_distinct_ids() {
    let mut symbols = SymbolTable::new();
    let ids: Vec<u32> = ["f", "g", "f", "F", ""].iter().map(|n| symbols.intern(n)).collect();
    assert_eq!(ids, vec![0, 1, 0, 2, 3]);
    assert_eq!(symbols.len(), 4);
    assert_eq!(symbols.name(3), "");
}

#[test]
fn a_unifier_equates_and_is_most_general() {
    let mut arena = TermArena::new();
    // f(X0, g(X1)) and f(g(X2), X0)
    let s = f_x_g_y(&mut arena, 0, 1);
    let x0 = arena.mk_var(0);
    let x2 = arena.mk_var(2);
    let g2 = arena.mk_app(1, &[x2]);
    let t = arena.mk_app(0, &[g2, x0]);
    let mut mgu = Substitution::new();
    assert!(unify(s, t, &arena, &mut mgu));
    let left = mgu.apply(s, &mut arena);
    let right = mgu.apply(t, &mut arena);
    assert_eq!(left, right);

    // The same the other way round.
    let mut back = Substitution::new();
    assert!(unify(t, s, &arena, &mut back));
    assert_eq!(back.apply(s, &mut arena), back.apply(t, &mut arena));

    // Another unifier, all variables replaced by a or g(a), goes through it.
    let a = arena.mk_const(2);
    let ga = arena.mk_app(1, &[a]);
    let mut other = Substitution::new();
    other.bind(0, ga);
    other.bind(1, a);
    other.bind(2, a);
    let instance = other.apply(s, &mut arena);
    assert_eq!(instance, other.apply(t, &mut arena));
    assert_eq!(instance, other.apply(left, &mut arena));
}

#[test]
fn the_occurs_check_decides() {
    let mut arena = TermArena::new();
    let x = arena.mk_var(0);
    let gx = arena.mk_app(1, &[x]);
    let mut subst = Substitution::new();
    assert!(!unify(x, gx, &arena, &mut subst));
    assert!(!unify(gx, x, &arena, &mut Substitution::new()));
    let mut loose = Substitution::new();
    assert!(unify_with_occurs_check(x, gx, &arena, &mut loose, false));
    assert_eq!(loose.binding_of(0), Some(gx));
}

#[test]
fn without_the_occurs_check_the_bindings_are_the_same() {
    let mut arena = TermArena::new();
    // f(X0, g(X1)) and f(g(X2), X0)
    let s = f_x_g_y(&mut arena, 0, 1);
    let x0 = arena.mk_var(0);
    let x2 = arena.mk_var(2);
    let g2 = arena.mk_app(1, &[x2]);
    let t = arena.mk_app(0, &[g2, x0]);
    let mut checked = Substitution::new();
    let mut unchecked = Substitution::new();
    assert!(unify_with_occurs_check(s, t, &arena, &mut checked, true));
    assert!(unify_with_occurs_check(s, t, &arena, &mut unchecked, false));
    for v in 0..3 {
        assert_eq!(checked.binding_of(v), unchecked.binding_of(v));
    }
    assert_eq!(checked.binding_of(0), Some(g2));
}

#[test]
fn resolving_and_applying_twice_changes_nothing_more() {
    let mut arena = TermArena::new();
    let s = f_x_g_y(&mut arena, 0, 1);
    let a = arena.mk_const(2);
    let x1 = arena.mk_var(1);
    let mut subst = Substitution::new();
    subst.bind(0, x1);
    subst.bind(1, a);
    let x0 = arena.mk_var(0);
    let end = subst.resolve(x0, &arena);
    assert_eq!(end, a);
    assert_eq!(subst.resolve(end, &arena), a);
    let once = subst.apply(s, &mut arena);
    let n = arena.len();
    assert_eq!(subst.apply(once, &mut arena), once);
    assert_eq!(arena.len(), n);

    // A term without bound variables keeps its id, and takes no room.
    let u = f_x_g_y(&mut arena, 5, 6);
    let n = arena.len();
    assert_eq!(subst.apply(u, &mut arena), u);
    assert_eq!(arena.len(), n);
}

#[test]
fn bindings_are_listed_in_order() {
    let mut subst = Substitution::new();
    for v in [7, 3, 5, 3] {
        subst.bind(v, v + 1);
    }
    assert_eq!(subst.iter(), vec![(3, 4), (5, 6), (7, 8)]);
    assert_eq!(subst.len(), 3);
    assert_eq!(subst, subst.clone());
}

#[test]
fn literals_unify_by_predicate_and_arguments() {
    let mut arena = TermArena::new();
    let x = arena.mk_var(0);
    let a = arena.mk_const(2);
    let px = Literal::positive(4, vec![x, x]);
    let pa = Literal::negative(4, vec![a, x]);
    let qa = Literal::negative(5, vec![a, a]);
    let short = Literal::negative(4, vec![a]);
    let mut subst = Substitution::new();
    assert!(unify_literals(&px, &pa, &arena, &mut subst));
    assert_eq!(subst.iter(), vec![(0, a)]);
    assert!(!unify_literals(&px, &qa, &arena, &mut Substitution::new()));
    assert!(!unify_literals(&px, &short, &arena, &mut Substitution::new()));
}

#[test]
fn negating_twice_gives_the_literal_back() {
    let l = Literal::positive(4, vec![0, 1]);
    let n = l.negate();
    assert!(n.is_negative());
    assert_eq!(n.negate(), l);
    assert!(l.is_complementary_ground(&n));
    assert!(n.is_complementary_ground(&l));
    assert!(!l.is_complementary_ground(&l));
}

#[test]
fn clause_ids_are_positions() {
    let arena = TermArena::new();
    let mut store = ClauseStore::new();
    for k in 0..4u32 {
        let id = store.insert(
            vec![Literal::positive(k, vec![])],
            InferenceInfo::input(),
            &arena,
        );
        assert_eq!(id, k);
    }
    for (k, c) in store.iter().enumerate() {
        assert_eq!(c.id as usize, k);
        assert_eq!(c.age, c.id);
        assert_eq!(c.literals[0].predicate, c.id);
    }
}

fn variables(ls: &[Literal], arena: &TermArena) -> BTreeSet<TermId> {
    let mut found = BTreeSet::new();
    let mut todo: Vec<TermId> = ls.iter().flat_map(|l| l.args.clone()).collect();
    while let Some(t) = todo.pop() {
        if arena.is_var(t) {
            found.insert(t);
        } else {
            todo.extend_from_slice(arena.args(t));
        }
    }
    found
}

#[test]
fn renamed_clauses_share_no_variable() {
    let mut arena = TermArena::new();
    let t = f_x_g_y(&mut arena, 0, 1);
    let ls = vec![Literal::positive(4, vec![t]), Literal::negative(5, vec![t])];
    let mut fresh = VarGen::new();
    let once = rename_apart(&ls, &mut fresh, &mut arena);
    let twice = rename_apart(&ls, &mut fresh, &mut arena);
    let old = variables(&ls, &arena);
    let first = variables(&once, &arena);
    let second = variables(&twice, &arena);
    assert_eq!((old.len(), first.len(), second.len()), (2, 2, 2));
    assert!(old.is_disjoint(&first));
    assert!(old.is_disjoint(&second));
    assert!(first.is_disjoint(&second));
    // The same variable has the same new name in both literals.
    assert_eq!(once[0].args, once[1].args);

    // The renaming can be undone.
    let mut subst = Substitution::new();
    assert!(unify(once[0].args[0], t, &arena, &mut subst));
    assert_eq!(subst.apply(once[0].args[0], &mut arena), subst.apply(t, &mut arena));
}

#[test]
fn ground_clauses_are_renamed_to_themselves() {
    let mut arena = TermArena::new();
    let a = arena.mk_const(2);
    let ls = vec![Literal::positive(4, vec![a])];
    let mut fresh = VarGen::new();
    assert_eq!(rename_apart(&ls, &mut fresh, &mut arena), ls);
    assert_eq!(fresh.fresh(), 0);
}

fn input(id: u32, literals: Vec<Literal>) -> Clause {
    Clause { id, literals, weight: 0, age: id, inference: InferenceInfo::input() }
}

#[test]
fn resolution_tries_every_pair_of_literals() {
    let mut arena = TermArena::new();
    let a = arena.mk_const(2);
    let b = arena.mk_const(3);
    // p(a) | q(b) against ~q(b) | ~p(a) | ~p(b)
    let c = input(0, vec![Literal::positive(4, vec![a]), Literal::positive(5, vec![b])]);
    let d = input(
        1,
        vec![
            Literal::negative(5, vec![b]),
            Literal::negative(4, vec![a]),
            Literal::negative(4, vec![b]),
        ],
    );
    let mut fresh = VarGen::new();
    let found = resolve(&c, &d, &mut fresh, &mut arena);
    let pairs: Vec<(usize, usize)> = found
        .iter()
        .map(|(_, info)| match &info.rule {
            InferenceRule::Resolution { left: 0, left_lit, right: 1, right_lit, unifier } => {
                assert!(unifier.is_empty());
                (*left_lit, *right_lit)
            }
            other => panic!("not a resolution of the two: {other:?}"),
        })
        .collect();
    assert_eq!(pairs, vec![(0, 1), (1, 0)]);
    // What is left of the first clause comes before what is left of the second.
    assert_eq!(
        found[0].0,
        vec![
            Literal::positive(5, vec![b]),
            Literal::negative(5, vec![b]),
            Literal::negative(4, vec![b]),
        ]
    );
}

#[test]
fn factoring_merges_each_pair_that_unifies() {
    let mut arena = TermArena::new();
    let x = arena.mk_var(0);
    let a = arena.mk_const(2);
    let b = arena.mk_const(3);
    let c = input(
        8,
        vec![
            Literal::positive(4, vec![x]),
            Literal::positive(4, vec![a]),
            Literal::negative(4, vec![a]),
            Literal::positive(4, vec![b]),
        ],
    );
    let found = factor(&c, &mut arena);
    let pairs: Vec<(usize, usize, Vec<(u32, TermId)>)> = found
        .iter()
        .map(|(_, info)| match &info.rule {
            InferenceRule::Factoring { parent: 8, lit_a, lit_b, unifier } => {
                (*lit_a, *lit_b, unifier.iter())
            }
            other => panic!("not a factoring of the clause: {other:?}"),
        })
        .collect();
    assert_eq!(pairs, vec![(0, 1, vec![(0, a)]), (0, 3, vec![(0, b)])]);
    assert_eq!(
        found[0].0,
        vec![
            Literal::positive(4, vec![a]),
            Literal::negative(4, vec![a]),
            Literal::positive(4, vec![b]),
        ]
    );
}

#[test]
fn depth_first_lists_what_is_reached_parents_first() {
    let adj: Vec<Vec<usize>> = vec![vec![], vec![0], vec![1, 0], vec![2], vec![0]];
    assert_eq!(depth_first(&adj, 3), vec![0, 1, 2, 3]);
    assert_eq!(depth_first(&adj, 4), vec![0, 4]);
    assert!(find_cycle(&adj).is_none());
}

#[test]
fn a_cycle_is_shown_by_a_walk_that_comes_back() {
    let adj: Vec<Vec<usize>> = vec![vec![1], vec![2], vec![3, 1], vec![]];
    let path = find_cycle(&adj).unwrap();
    assert_eq!(path, vec![0, 1, 2, 1]);
    for w in path.windows(2) {
        assert!(adj[w[0]].contains(&w[1]));
    }
    let itself: Vec<Vec<usize>> = vec![vec![0]];
    assert_eq!(find_cycle(&itself), Some(vec![0, 0]));
}

const PROBLEM: &str = "
    (clause (not (man X)) (mortal X))
    (clause (not (mortal X)) (animal X))
    (clause (man socrates))
    (clause (man plato))
    (clause (not (animal socrates)))
";

fn proved() -> (Saturation, SymbolTable, u32) {
    let mut symbols = SymbolTable::new();
    let mut sat = Saturation::new();
    sat.add_parsed_problem(PROBLEM, &mut symbols).unwrap();
    match sat.run(10_000) {
        SaturationResult::Proved(id) => (sat, symbols, id),
        other => panic!("no proof: {other:?}"),
    }
}

#[test]
fn parents_come_before_their_clause() {
    let (sat, _, id) = proved();
    for c in sat.clause_store().iter() {
        for p in &c.inference.parents {
            assert!(*p < c.id);
        }
    }
    let trace = sat.proof_trace(id);
    assert_eq!(trace.last(), Some(&id));
    let distinct: HashSet<u32> = trace.iter().copied().collect();
    assert_eq!(distinct.len(), trace.len());
    for (k, c) in trace.iter().enumerate() {
        for p in &sat.clause_store().get(*c).inference.parents {
            assert!(trace[..k].contains(p));
        }
    }
}

#[test]
fn every_clause_is_active_passive_or_the_last() {
    let mut symbols = SymbolTable::new();
    let mut sat = Saturation::new();
    sat.add_parsed_problem(PROBLEM, &mut symbols).unwrap();
    assert_eq!(sat.passive_len() + sat.active_len(), sat.clause_store().len());
    assert_eq!(sat.run(7), SaturationResult::ClauseLimitReached);
    assert_eq!(sat.passive_len() + sat.active_len(), sat.clause_store().len());
}

#[test]
fn a_run_after_a_refutation_makes_each_inference_once_and_in_order() {
    let mut symbols = SymbolTable::new();
    let mut sat = Saturation::new();
    sat.add_parsed_problem(
        "(clause (p a)) (clause (not (p a))) (clause (q X) (q Y)) (clause (not (q b)) (r b))",
        &mut symbols,
    )
    .unwrap();
    assert_eq!(sat.run(100), SaturationResult::Proved(4));
    assert_eq!((sat.active_len(), sat.passive_len()), (1, 2));
    assert_eq!(sat.run(100), SaturationResult::Saturated);
    let made: Vec<(i64, i64, i64, i64)> = sat
        .clause_store()
        .iter()
        .filter(|c| c.id > 4)
        .map(|c| match &c.inference.rule {
            InferenceRule::Resolution { left, left_lit, right, right_lit, .. } => {
                (*left as i64, *right as i64, *left_lit as i64, *right_lit as i64)
            }
            InferenceRule::Factoring { parent, lit_a, lit_b, .. } => {
                (*parent as i64, -1, *lit_a as i64, *lit_b as i64)
            }
            _ => panic!("neither a resolvent nor a factor"),
        })
        .collect();
    assert_eq!(
        made,
        vec![
            (2, -1, 0, 1),
            (3, 2, 0, 0),
            (3, 2, 0, 1),
            (5, 3, 0, 0),
            (6, 3, 1, 0),
            (7, 3, 1, 0),
            (9, -1, 0, 1),
            (10, -1, 0, 1),
        ]
    );
    // Clause 2 has the variables 0 and 1. It was renamed twice: against clause 0
    // with the variables 2 and 3, then for clause 3 with 4 and 5.
    let c = sat.clause_store().get(6);
    assert_eq!(c.display(sat.arena(), &symbols), "r(b) | q(X5)");
}

#[test]
fn growing_the_arena_leaves_the_search_alone() {
    let mut symbols = SymbolTable::new();
    let mut sat = Saturation::new();
    sat.add_parsed_problem(PROBLEM, &mut symbols).unwrap();
    let before: Vec<String> =
        sat.clause_store().iter().map(|c| c.display(sat.arena(), &symbols)).collect();
    let n = sat.arena().len();
    sat.arena_mut().mk_var(77);
    assert_eq!(sat.arena().len(), n + 1);
    let after: Vec<String> =
        sat.clause_store().iter().map(|c| c.display(sat.arena(), &symbols)).collect();
    assert_eq!(before, after);
    assert!(matches!(sat.run(10_000), SaturationResult::Proved(_)));
}

#[test]
fn a_saturated_search_holds_every_resolvent() {
    let mut symbols = SymbolTable::new();
    let mut sat = Saturation::new();
    sat.add_parsed_problem(
        "(clause (not (p X)) (q X)) (clause (not (q X)) (r X)) (clause (p a))",
        &mut symbols,
    )
    .unwrap();
    assert_eq!(sat.run(1000), SaturationResult::Saturated);
    let n = sat.clause_store().len();
    let shown: Vec<String> =
        sat.clause_store().iter().map(|c| c.display(sat.arena(), &symbols)).collect();
    for text in ["q(a)", "r(a)"] {
        assert!(shown.iter().any(|s| s == text), "{text} is missing");
    }
    // Nothing more is found.
    assert_eq!(sat.run(1000), SaturationResult::Saturated);
    assert_eq!(sat.clause_store().len(), n);
}

#[test]
fn a_search_is_a_valid_graph_and_its_certificate_its_proof() {
    let (sat, _, id) = proved();
    let mut dag = ProofDag::new();
    for c in sat.clause_store().iter() {
        assert!(dag.insert(c.clone()).is_ok());
    }
    assert_eq!(dag.len(), sat.clause_store().len());
    assert!(dag.validate().is_ok());
    let certificate = dag.certificate().unwrap();
    let ids: Vec<u32> = certificate.iter().map(|c| c.id).collect();
    assert_eq!(ids, sat.proof_trace(id));
    assert!(certificate.last().unwrap().is_empty());
    let relevant = dag.extract_relevant(id).unwrap();
    assert_eq!(relevant.len(), certificate.len());
}

#[test]
fn certificates_name_the_symbols_and_terms_they_use() {
    let (sat, symbols, _) = proved();
    let mut dag = ProofDag::new();
    for c in sat.clause_store().iter() {
        dag.insert(c.clone()).unwrap();
    }
    let certificate = dag.certificate().unwrap();
    let terms: BTreeSet<TermId> =
        collect_used_term_ids(&certificate, sat.arena()).iter().copied().collect();
    for t in &terms {
        for a in sat.arena().args(*t) {
            assert!(a < t && terms.contains(a));
        }
    }
    let used = used_symbol_ids(&certificate, &terms, sat.arena());
    let names: Vec<&str> = used.iter().map(|s| symbols.name(*s)).collect();
    // plato has no part in the proof.
    assert_eq!(names, vec!["man", "mortal", "animal", "socrates"]);
}

#[test]
fn a_certificate_has_this_text() {
    let mut symbols = SymbolTable::new();
    let mut sat = Saturation::new();
    sat.add_parsed_problem(
        "(clause (not (man X)) (mortal X)) (clause (man socrates)) (clause (not (mortal socrates)))",
        &mut symbols,
    )
    .unwrap();
    assert_eq!(sat.run(10_000), SaturationResult::Proved(5));
    let mut dag = ProofDag::new();
    for c in sat.clause_store().iter() {
        dag.insert(c.clone()).unwrap();
    }
    let certificate = dag.certificate().unwrap();
    let text =
        write_beardag(&certificate, sat.arena(), |s| symbols.name(s).to_string()).unwrap();
    let expected = "\
;; .beardag v1 — generated certificate, do not hand-edit
(beardag
  (version 1)
  (symbols
    (0 man)
    (1 mortal)
    (2 socrates)
  )
  (terms
    (0 (var 0))
    (1 (app 2 ()))
  )
  (clauses
    (clause 1
      (literals
        (pos 0 (1))
      )
      (input)
    )
    (clause 0
      (literals
        (neg 0 (0))
        (pos 1 (0))
      )
      (input)
    )
    (clause 3
      (literals
        (pos 1 (1))
      )
      (resolution (left 1) (left_lit 0) (right 0) (right_lit 0) (subst (1 1)))
    )
    (clause 2
      (literals
        (neg 1 (1))
      )
      (input)
    )
    (clause 5
      (literals)
      (resolution (left 3) (left_lit 0) (right 2) (right_lit 0) (subst ))
    )
  )
  (root 5)
)
";
    assert_eq!(text, expected);
}

#[test]
fn a_problem_is_no_larger_than_its_text() {
    let text = "(clause (p (f X Y) a) (not q)) (clause)";
    let mut arena = TermArena::new();
    let mut symbols = SymbolTable::new();
    let clauses = parse_problem(text, &mut arena, &mut symbols).unwrap();
    assert_eq!(clauses.len(), 2);
    assert!(clauses[1].is_empty());
    assert_eq!(arena.len(), 4);
    assert_eq!(symbols.len(), 4);
    assert!(arena.len() <= text.len() && symbols.len() <= text.len());
}

#[test]
fn name_role_and_parentheses_have_no_effect() {
    let mut arena = TermArena::new();
    let mut symbols = SymbolTable::new();
    let plain = parse_tptp_problem("cnf(n, r, p(X, a) | ~q).", &mut arena, &mut symbols).unwrap();
    let mut arena2 = TermArena::new();
    let mut symbols2 = SymbolTable::new();
    let wrapped =
        parse_tptp_problem("cnf(m, s, (p(X, a) | ~q)).", &mut arena2, &mut symbols2).unwrap();
    assert_eq!(plain, wrapped);
    assert_eq!(plain.len(), 1);
    assert_eq!(plain[0].len(), 2);
    assert_eq!(arena.terms, arena2.terms);
    assert_eq!(arena.args_pool, arena2.args_pool);
    assert_eq!((symbols.len(), symbols2.len()), (3, 3));
}

#[test]
fn a_limit_of_ten_clauses_stops_an_endless_search() {
    let mut symbols = SymbolTable::new();
    let mut sat = Saturation::new();
    let ids = sat
        .add_parsed_problem("(clause (p a))\n(clause (not (p X)) (p (f X)))", &mut symbols)
        .unwrap();
    assert_eq!(ids, vec![0, 1]);
    assert_eq!(sat.run(10), SaturationResult::ClauseLimitReached);
    assert_eq!(sat.clause_store().len(), 10);
    assert_eq!(sat.active_len(), 9);
    assert_eq!(sat.passive_len(), 1);
}

#[test]
fn remarks_take_no_room() {
    let mut arena = TermArena::new();
    let mut symbols = SymbolTable::new();
    let mut text = String::new();
    for _ in 0..20_000 {
        text.push_str("; nothing but (a remark)\n");
    }
    text.push_str("(clause (p a))");
    let clauses = parse_problem(&text, &mut arena, &mut symbols).unwrap();
    assert_eq!(clauses.len(), 1);
    assert_eq!((arena.len(), symbols.len()), (1, 2));
}

#[test]
fn only_new_terms_take_room() {
    let mut arena = TermArena::new();
    let a = arena.mk_const(2);
    let s = f_x_g_y(&mut arena, 0, 1);
    let mut subst = Substitution::new();
    subst.bind(0, a);
    subst.bind(1, a);
    let n = arena.len();
    // g(a) and f(a, g(a)) are new.
    subst.apply(s, &mut arena);
    assert_eq!(arena.len(), n + 2);
    let mut fresh = VarGen::new();
    let n = arena.len();
    // X2, X3, g(X3) and f(X2, g(X3)) are new.
    rename_apart(&[Literal::positive(4, vec![s, a])], &mut fresh, &mut arena);
    assert_eq!(arena.len(), n + 4);
    assert_eq!(fresh.fresh(), 4);
}

#[test]
fn both_formats_read_the_same_clauses() {
    let mut arena = TermArena::new();
    let mut symbols = SymbolTable::new();
    let lists = parse_problem(
        "(clause (not (p X (f Y X))) q) ; a rule\n(clause (p a Z))",
        &mut arena,
        &mut symbols,
    )
    .unwrap();
    let n = arena.len();
    let tptp = parse_tptp_problem(
        "% a rule\ncnf(r, axiom, (~p(X, f(Y, X)) | q)). /* a\nfact */ cnf(s, axiom, p(a, Z)).",
        &mut arena,
        &mut symbols,
    )
    .unwrap();
    assert_eq!(lists, tptp);
    assert_eq!(arena.len(), n);
}
