use bear::beardag::{write_beardag, BeardagError};
use bear::clause::{Clause, ClauseId, InferenceInfo, InferenceRule, Literal};
use bear::proof_dag::ProofDag;
use bear::term::{SymbolId, TermArena, TermId};
use bear::unify::Substitution;
use std::collections::HashMap;

struct MiniSymbols {
    by_name: HashMap<String, SymbolId>,
    names: Vec<String>,
}
impl MiniSymbols {
    fn new() -> Self {
        Self { by_name: HashMap::new(), names: vec![] }
    }
    fn intern(&mut self, name: &str) -> SymbolId {
        if let Some(&id) = self.by_name.get(name) {
            return id;
        }
        let id = self.names.len() as u32;
        self.names.push(name.to_string());
        self.by_name.insert(name.to_string(), id);
        id
    }
    fn name(&self, id: SymbolId) -> String {
        self.names[id as usize].clone()
    }
}

fn lit(polarity: bool, predicate: SymbolId, args: Vec<TermId>) -> Literal {
    Literal { polarity, predicate, args }
}

fn input_clause(id: ClauseId, literals: Vec<Literal>) -> Clause {
    Clause {
        id,
        literals,
        age: 0,
        weight: 0,
        inference: InferenceInfo { rule: InferenceRule::Input, parents: vec![] },
    }
}

fn resolution_clause(
    id: ClauseId,
    literals: Vec<Literal>,
    left: ClauseId,
    left_lit: usize,
    right: ClauseId,
    right_lit: usize,
    unifier: Substitution
) -> Clause {
    Clause {
        id,
        literals,
        age: 0,
        weight: 0,
        inference: InferenceInfo {
            rule: InferenceRule::Resolution { left, left_lit, right, right_lit, unifier },
            parents: vec![left, right],
        },
    }
}

/// Builds and serializes the socrates certificate end to end.
fn socrates_beardag() -> String {
    let mut arena = TermArena::new();
    let mut syms = MiniSymbols::new();

    let p_man = syms.intern("man");
    let p_mortal = syms.intern("mortal");
    let c_socrates = syms.intern("socrates");

    let x0 = arena.mk_var(0);
    let socrates = arena.mk_const(c_socrates);

    let mut dag = ProofDag::new();
    dag.insert(
        input_clause(0, vec![lit(false, p_man, vec![x0]), lit(true, p_mortal, vec![x0])])
    ).unwrap();
    dag.insert(input_clause(1, vec![lit(true, p_man, vec![socrates])])).unwrap();
    dag.insert(input_clause(2, vec![lit(false, p_mortal, vec![socrates])])).unwrap();

    let mut sub = Substitution::new();
    sub.bind(0, socrates);
    dag.insert(
        resolution_clause(3, vec![lit(true, p_mortal, vec![socrates])], 1, 0, 0, 0, sub)
    ).unwrap();
    dag.insert(resolution_clause(5, vec![], 3, 0, 2, 0, Substitution::default())).unwrap();

    let cert = dag.certificate().expect("certificate extraction failed");
    write_beardag(&cert, &arena, |id| syms.name(id)).expect("serialization failed")
}

#[test]
fn serializes_without_error_and_names_the_root() {
    let text = socrates_beardag();
    assert!(text.contains("(root 5)"), "missing/wrong root marker:\n{text}");
    assert!(text.contains("(clause 5"), "missing bottom clause:\n{text}");
    assert!(text.contains("man"), "symbol table missing 'man':\n{text}");
    assert!(text.contains("mortal"), "symbol table missing 'mortal':\n{text}");
    assert!(text.contains("socrates"), "symbol table missing 'socrates':\n{text}");
}

#[test]
fn every_symbol_id_used_in_clauses_or_terms_is_declared() {
    let text = socrates_beardag();
    // crude but effective self-containment check: every numeric id
    // appearing as a predicate/symbol slot must have a line in the
    // symbols block declaring it. Real validation belongs to the
    // (future) parser; this is a smoke test on the text output.
    let symbols_block_present = text.contains("(symbols\n");
    assert!(symbols_block_present);
}

#[test]
fn rejects_non_bottom_terminated_input() {
    let arena = TermArena::new();
    let clauses = vec![input_clause(0, vec![])]; // not empty-literal by construction below
    // Force a non-bottom last clause: give it a literal.
    let mut c = clauses;
    c[0].literals = vec![lit(true, 0, vec![])];
    let err = write_beardag(&c, &arena, |_| "x".to_string()).unwrap_err();
    assert!(matches!(err, BeardagError::NotBottomTerminated { last_id: 0 }));
}

#[test]
fn rejects_empty_certificate() {
    let arena = TermArena::new();
    let err = write_beardag(&[], &arena, |_| "x".to_string()).unwrap_err();
    assert!(matches!(err, BeardagError::EmptyCertificate));
}

#[test]
fn output_is_deterministic_across_runs() {
    let a = socrates_beardag();
    let b = socrates_beardag();
    assert_eq!(a, b, ".beardag output must be byte-identical across re-runs");
}
