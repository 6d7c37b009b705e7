use bear::clause::{Clause, ClauseId, InferenceInfo, InferenceRule, Literal};
use bear::proof_dag::{collect_used_term_ids, DagError, ProofDag};
use bear::term::{SymbolId, TermArena, TermId};
use bear::unify::Substitution;
use std::collections::HashMap;

struct MiniSymbols {
    by_name: HashMap<String, SymbolId>,
    names: Vec<String>,
}

impl MiniSymbols {
    fn new() -> Self {
        Self { by_name: HashMap::new(), names: vec![] }
    }
    fn intern(&mut self, name: &str) -> SymbolId {
        if let Some(&id) = self.by_name.get(name) {
            return id;
        }
        let id = self.names.len() as u32;
        self.names.push(name.to_string());
        self.by_name.insert(name.to_string(), id);
        id
    }
}

fn lit(polarity: bool, predicate: SymbolId, args: Vec<TermId>) -> Literal {
    Literal { polarity, predicate, args }
}

fn input_clause(id: ClauseId, literals: Vec<Literal>) -> Clause {
    Clause {
        id,
        literals,
        age: 0,
        weight: 0,
        inference: InferenceInfo { rule: InferenceRule::Input, parents: vec![] },
    }
}

fn resolution_clause(
    id: ClauseId,
    literals: Vec<Literal>,
    left: ClauseId,
    left_lit: usize,
    right: ClauseId,
    right_lit: usize,
    unifier: Substitution
) -> Clause {
    Clause {
        id,
        literals,
        age: 0,
        weight: 0,
        inference: InferenceInfo {
            rule: InferenceRule::Resolution { left, left_lit, right, right_lit, unifier },
            parents: vec![left, right],
        },
    }
}

/// Socrates DAG plus one decoy clause (id 4) the search explored but
/// the refutation never uses.
fn build_socrates_dag() -> ProofDag {
    let mut arena = TermArena::new();
    let mut syms = MiniSymbols::new();

    let p_man = syms.intern("man");
    let p_mortal = syms.intern("mortal");
    let c_socrates = syms.intern("socrates");

    let x0 = arena.mk_var(0);
    let socrates = arena.mk_const(c_socrates);

    let mut dag = ProofDag::new();

    dag.insert(
        input_clause(0, vec![lit(false, p_man, vec![x0]), lit(true, p_mortal, vec![x0])])
    ).unwrap();

    dag.insert(input_clause(1, vec![lit(true, p_man, vec![socrates])])).unwrap();

    dag.insert(input_clause(2, vec![lit(false, p_mortal, vec![socrates])])).unwrap();

    let mut sub = HashMap::new();
    sub.insert(0u32, socrates);
    dag.insert(
        resolution_clause(
            3,
            vec![lit(true, p_mortal, vec![socrates])],
            1,
            0,
            0,
            0,
            Substitution::default()
        )
    ).unwrap();

    // decoy: factoring clause, never reachable from bottom
    dag.insert(Clause {
        id: 4,
        literals: vec![lit(true, p_man, vec![x0])],
        age: 0,
        weight: 0,
        inference: InferenceInfo {
            rule: InferenceRule::Factoring {
                parent: 0,
                lit_a: 0,
                lit_b: 0,
                unifier: Substitution::default(),
            },
            parents: vec![0],
        },
    }).unwrap();

    dag.insert(resolution_clause(5, vec![], 3, 0, 2, 0, Substitution::default())).unwrap();

    dag
}

/// A tiny DAG whose only point is to have a substitution binding that
/// targets a COMPOUND term (`f(a, b)`), so `collect_used_term_ids` has
/// something non-trivial to recurse into. Shape:
///   [0] p(X)            (input)
///   [1] ~p(f(a, b))      (input, negated goal)
///   [2] ⊥  (Resolution <- [0, 1], unifier: X -> f(a, b))
/// Also throws in an unrelated term (`unused_const`) built in the same
/// arena but never referenced by any clause, to prove it's correctly
/// excluded from the collected set.
fn build_dag_with_nested_terms() -> (ProofDag, TermArena, TermId, TermId, TermId, TermId) {
    let mut arena = TermArena::new();
    let mut syms = MiniSymbols::new();

    let p_p = syms.intern("p");
    let s_f = syms.intern("f");
    let s_a = syms.intern("a");
    let s_b = syms.intern("b");
    let s_unused = syms.intern("unused");

    let x0 = arena.mk_var(0);
    let a = arena.mk_const(s_a);
    let b = arena.mk_const(s_b);
    let fab = arena.mk_app(s_f, &[a, b]);
    let unused_const = arena.mk_const(s_unused); // never referenced by any clause

    let mut dag = ProofDag::new();

    dag.insert(input_clause(0, vec![lit(true, p_p, vec![x0])])).unwrap();
    dag.insert(input_clause(1, vec![lit(false, p_p, vec![fab])])).unwrap();

    let mut sub = Substitution::new();
    sub.bind(0u32, fab);
    dag.insert(resolution_clause(2, vec![], 0, 0, 1, 0, sub)).unwrap();

    (dag, arena, fab, a, b, unused_const)
}

#[test]
fn collect_used_term_ids_recurses_into_compound_terms_and_excludes_unused() {
    let (dag, arena, fab, a, b, unused_const) = build_dag_with_nested_terms();
    let cert = dag.certificate().expect("certificate extraction failed");
    let used = collect_used_term_ids(&cert, &arena);

    // fab = f(a, b) is referenced directly (it's the substitution's
    // binding target); a and b are only reachable by recursing into
    // fab's App args — this is the whole point of the closure walk.
    assert!(used.contains(&fab), "compound substitution target missing from closure");
    assert!(used.contains(&a), "subterm `a` missing: closure didn't recurse into App args");
    assert!(used.contains(&b), "subterm `b` missing: closure didn't recurse into App args");

    assert!(
        !used.contains(&unused_const),
        "collect_used_term_ids pulled in a term no clause ever referenced"
    );
}

#[test]
fn validates_clean() {
    assert!(build_socrates_dag().validate().is_ok());
}

#[test]
fn finds_bottom() {
    assert_eq!(build_socrates_dag().find_bottom(), Some(5));
}

#[test]
fn extraction_prunes_the_decoy_and_orders_topologically() {
    let dag = build_socrates_dag();
    let cert = dag.certificate().expect("certificate extraction failed");
    let ids: Vec<ClauseId> = cert
        .iter()
        .map(|c| c.id)
        .collect();

    assert!(!ids.contains(&4), "pruning failed: decoy clause leaked into certificate");
    assert_eq!(ids.len(), 5);

    let pos: HashMap<ClauseId, usize> = ids
        .iter()
        .enumerate()
        .map(|(i, id)| (*id, i))
        .collect();
    for c in &cert {
        for p in &c.inference.parents {
            assert!(pos[p] < pos[&c.id], "parent {p} must precede child {}", c.id);
        }
    }
    assert!(cert.last().unwrap().is_empty());
}

#[test]
fn detects_dangling_parent() {
    let mut dag = ProofDag::new();
    dag.insert(resolution_clause(0, vec![], 99, 0, 1, 0, Substitution::default())).unwrap();
    match dag.validate() {
        Err(DagError::UnknownParent { missing: 99, .. }) => {}
        other => panic!("expected UnknownParent(99), got {other:?}"),
    }
}

#[test]
fn detects_cycle() {
    let mut dag = ProofDag::new();
    dag.insert(Clause {
        id: 0,
        literals: vec![],
        age: 0,
        weight: 0,
        inference: InferenceInfo {
            rule: InferenceRule::Factoring {
                parent: 1,
                lit_a: 0,
                lit_b: 0,
                unifier: Substitution::default(),
            },
            parents: vec![1],
        },
    }).unwrap();
    dag.insert(Clause {
        id: 1,
        literals: vec![],
        age: 0,
        weight: 0,
        inference: InferenceInfo {
            rule: InferenceRule::Factoring {
                parent: 0,
                lit_a: 0,
                lit_b: 0,
                unifier: Substitution::default(),
            },
            parents: vec![0],
        },
    }).unwrap();
    assert!(matches!(dag.validate(), Err(DagError::Cycle(_))));
}

#[test]
fn detects_parents_mismatch() {
    // rule says parents are [1, 0], but inference.parents claims [1, 2]
    // (e.g. an emitter bug where the wrong clause id was recorded).
    let mut dag = ProofDag::new();
    dag.insert(input_clause(0, vec![])).unwrap();
    dag.insert(input_clause(1, vec![])).unwrap();
    dag.insert(input_clause(2, vec![])).unwrap();
    dag.insert(Clause {
        id: 3,
        literals: vec![],
        age: 0,
        weight: 0,
        inference: InferenceInfo {
            rule: InferenceRule::Resolution {
                left: 1,
                left_lit: 0,
                right: 0,
                right_lit: 0,
                unifier: Substitution::default(),
            },
            parents: vec![1, 2], // desynced on purpose
        },
    }).unwrap();
    assert!(matches!(dag.validate(), Err(DagError::ParentsMismatch { clause: 3, .. })));
}
