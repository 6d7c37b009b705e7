//! Every error that reading a problem gives, and the errors of proof graphs
//! and certificates.
use bear::beardag::{sexp_atom, write_beardag, BeardagError};
use bear::clause::{Clause, InferenceInfo, InferenceRule, Literal};
use bear::parser::parse_problem;
use bear::proof_dag::{DagError, ProofDag};
use bear::term::{SymbolTable, TermArena};
use bear::tptp::parse_tptp_problem;
use bear::unify::Substitution;

fn list_error(input: &str) -> (usize, String) {
    let mut arena = TermArena::new();
    let mut symbols = SymbolTable::new();
    let e = parse_problem(input, &mut arena, &mut symbols).unwrap_err();
    assert_eq!(e.describe(), format!("baris {}: {}", e.line, e.message));
    (e.line, e.message)
}

fn tptp_error(input: &str) -> (usize, String) {
    let mut arena = TermArena::new();
    let mut symbols = SymbolTable::new();
    let e = parse_tptp_problem(input, &mut arena, &mut symbols).unwrap_err();
    assert_eq!(e.describe(), format!("baris {}: {}", e.line, e.message));
    (e.line, e.message)
}

fn at(line: usize, message: &str) -> (usize, String) {
    (line, message.to_string())
}

#[test]
fn list_errors_of_form() {
    assert_eq!(
        list_error("\n(clause (p a)\n  (q b)"),
        at(2, "tanda kurung tidak lengkap: EOF sebelum ')' penutup")
    );
    assert_eq!(
        list_error("(clause\n\n(p a"),
        at(3, "tanda kurung tidak lengkap: EOF sebelum ')' penutup")
    );
    assert_eq!(
        list_error("(clause p)\n)"),
        at(2, "')' tak terduga tanpa '(' pembuka")
    );
    assert_eq!(
        list_error("clause"),
        at(1, "form top-level harus berbentuk (clause <literal>...), bukan atom lepas")
    );
    assert_eq!(
        list_error("()"),
        at(1, "form top-level kosong, harus (clause <literal>...)")
    );
    assert_eq!(
        list_error("(\naxiom (p a))"),
        at(2, "form top-level harus diawali simbol 'clause'")
    );
    assert_eq!(
        list_error("((clause))"),
        at(1, "form top-level harus diawali simbol 'clause'")
    );
}

#[test]
fn list_errors_of_literals() {
    assert_eq!(
        list_error("(clause (not p q))"),
        at(1, "'not' butuh tepat 1 argumen: (not (pred arg...))")
    );
    assert_eq!(
        list_error("(clause (not))"),
        at(1, "'not' butuh tepat 1 argumen: (not (pred arg...))")
    );
    assert_eq!(list_error("(clause\n())"), at(2, "'()' bukan literal yang valid"));
    assert_eq!(
        list_error("(clause (\n(p) a))"),
        at(2, "kepala predicate harus simbol, bukan list")
    );
    let upper = "'P' diawali huruf besar (dianggap variable), tidak bisa dipakai sebagai nama predicate";
    assert_eq!(list_error("(clause P)"), at(1, upper));
    assert_eq!(list_error("(clause (not (P a)))"), at(1, upper));
}

#[test]
fn list_errors_of_terms() {
    assert_eq!(list_error("(clause (p ()))"), at(1, "'()' bukan term yang valid"));
    assert_eq!(
        list_error("(clause (p ((f) a)))"),
        at(1, "kepala function application harus simbol, bukan list")
    );
    assert_eq!(
        list_error("(clause (p\n(_f a)))"),
        at(
            2,
            "'_f' diawali huruf besar (dianggap variable), tidak bisa dipakai sebagai nama function"
        )
    );
}

#[test]
fn the_first_list_error_is_reported() {
    // The second form is not closed: found before the first is looked at.
    assert_eq!(
        list_error("(clause P)\n(clause"),
        at(2, "tanda kurung tidak lengkap: EOF sebelum ')' penutup")
    );
    assert_eq!(
        list_error("(clause (p (X a)) Q)").1,
        "'X' diawali huruf besar (dianggap variable), tidak bisa dipakai sebagai nama function"
    );
}

#[test]
fn tptp_errors_of_characters() {
    assert_eq!(
        tptp_error("\n/* open\n\n"),
        at(2, "block comment '/*' doesn't close with '*/'")
    );
    assert_eq!(tptp_error("\n/ x"), at(2, "'/' unexpected out of scope"));
    assert_eq!(tptp_error("!x"), at(1, "'!' unexpected (only known part of '!=')"));
    assert_eq!(
        tptp_error("'a\nb'"),
        at(1, "tanda kutip tunggal tidak ditutup sebelum akhir baris")
    );
    assert_eq!(
        tptp_error("\n\n'ab"),
        at(3, "tanda kutip tunggal tidak ditutup sebelum EOF")
    );
    assert_eq!(
        tptp_error("cnf(a, axiom, p).\u{a0}"),
        at(1, "karakter tidak dikenal: '\u{a0}'")
    );
}

#[test]
fn tptp_errors_of_statements() {
    assert_eq!(
        tptp_error("fof(a, axiom, p)."),
        at(1, "diharapkan 'cnf(...)', ditemukan 'fof(...)'")
    );
    assert_eq!(tptp_error("(cnf"), at(1, "diharapkan 'cnf', ditemukan LParen"));
    assert_eq!(tptp_error("cnf\na"), at(2, "diharapkan '(' setelah 'cnf', ditemukan Ident(\"a\")"));
    assert_eq!(tptp_error("cnf"), at(1, "diharapkan '(' setelah 'cnf', tapi EOF"));
    assert_eq!(tptp_error("cnf(,"), at(1, "diharapkan nama clause, ditemukan Comma"));
    assert_eq!(tptp_error("cnf(a."), at(1, "diharapkan ',' setelah nama clause, ditemukan Dot"));
    assert_eq!(
        tptp_error("cnf(a,|"),
        at(1, "diharapkan role (mis. 'axiom', 'conjecture'), ditemukan Pipe")
    );
    assert_eq!(tptp_error("cnf(a,axiom~"), at(1, "diharapkan ',' setelah role, ditemukan Tilde"));
    assert_eq!(
        tptp_error("cnf(a,axiom,p = "),
        at(
            1,
            "literal equality ('=' / '!=') belum didukung — Bear belum punya paramodulation"
        )
    );
    assert_eq!(tptp_error("cnf(a,axiom,="), at(1, "diharapkan nama predicate, ditemukan Equals"));
    assert_eq!(
        tptp_error("cnf(a,axiom,~~"),
        at(1, "diharapkan nama predicate, ditemukan Tilde")
    );
    assert_eq!(
        tptp_error("cnf(a,axiom,p"),
        at(1, "diharapkan ')' penutup 'cnf(...)', tapi EOF")
    );
    assert_eq!(
        tptp_error("cnf(a,axiom,(p\n"),
        at(1, "diharapkan ')' penutup formula, tapi EOF")
    );
    assert_eq!(tptp_error("cnf(a,axiom,p)"), at(1, "diharapkan '.' penutup statement, tapi EOF"));
    assert_eq!(
        tptp_error("cnf(a,axiom,p))"),
        at(1, "diharapkan '.' penutup statement, ditemukan RParen")
    );
}

#[test]
fn tptp_errors_of_literals_and_terms() {
    assert_eq!(
        tptp_error("cnf(a,axiom,\n~P(x))."),
        at(
            2,
            "'P' diawali huruf besar (dianggap variable), tidak bisa dipakai sebagai nama predicate"
        )
    );
    assert_eq!(tptp_error("cnf(a,axiom,p()"), at(1, "diharapkan nama term, ditemukan RParen"));
    assert_eq!(tptp_error("cnf(a,axiom,p("), at(1, "diharapkan nama term, tapi EOF"));
    assert_eq!(
        tptp_error("cnf(a,axiom,p(x!=y"),
        at(1, "diharapkan ')' penutup argumen predicate, ditemukan NotEquals")
    );
    assert_eq!(
        tptp_error("cnf(a,axiom,p(f(x."),
        at(1, "diharapkan ')' penutup argumen term, ditemukan Dot")
    );
    let equality = "literal equality ('=' / '!=') belum didukung — Bear belum punya paramodulation";
    assert_eq!(tptp_error("cnf(c1, axiom, X = b)."), at(1, equality));
    assert_eq!(tptp_error("cnf(c1, axiom, p |\n~X != b)."), at(2, equality));
    assert_eq!(tptp_error("cnf(c1, axiom, a = b)."), at(1, equality));
    assert_eq!(tptp_error("cnf(c1, axiom, f(X) = b)."), at(1, equality));
    // A variable takes no arguments.
    assert_eq!(
        tptp_error("cnf(a,axiom,p(X(a)))."),
        at(1, "diharapkan ')' penutup argumen predicate, ditemukan LParen")
    );
}

#[test]
fn tptp_errors_quote_the_name_they_found() {
    assert_eq!(
        tptp_error("cnf('x\"y\\z\t'x"),
        at(1, "diharapkan ',' setelah nama clause, ditemukan Ident(\"x\")")
    );
    assert_eq!(
        tptp_error("cnf 'x\"y\\z\té'"),
        at(1, "diharapkan '(' setelah 'cnf', ditemukan Ident(\"x\\\"y\\\\z\\té\")")
    );
}

#[test]
fn a_block_comment_ends_a_name() {
    let mut arena = TermArena::new();
    let mut symbols = SymbolTable::new();
    let text = "cnf/*c*/(n/**/, axiom, p/*c*/(a/b/* x\n */, *c)).";
    let clauses = parse_tptp_problem(text, &mut arena, &mut symbols).unwrap();
    assert_eq!(clauses.len(), 1);
    assert_eq!(clauses[0][0].arity(), 2);
    assert_eq!((symbols.name(0), symbols.name(1), symbols.name(2)), ("a/b", "*c", "p"));
    assert_eq!(tptp_error("p/*"), at(1, "block comment '/*' doesn't close with '*/'"));
}

#[test]
fn no_term_is_built_before_all_parentheses_match() {
    let mut arena = TermArena::new();
    let mut symbols = SymbolTable::new();
    let e = parse_problem("(clause (p a))\n(clause\n(q b", &mut arena, &mut symbols).unwrap_err();
    assert_eq!(e.line, 3);
    assert_eq!((arena.len(), symbols.len()), (0, 0));
    let e = parse_tptp_problem("cnf(a, axiom, p(b)).\n'", &mut arena, &mut symbols).unwrap_err();
    assert_eq!(e.line, 2);
    assert_eq!((arena.len(), symbols.len()), (0, 0));
}

#[test]
fn unicode_white_space_separates_names() {
    let mut arena = TermArena::new();
    let mut symbols = SymbolTable::new();
    let clauses = parse_problem("(clause\u{a0}(p\u{2003}a))", &mut arena, &mut symbols).unwrap();
    assert_eq!(clauses.len(), 1);
    assert_eq!(clauses[0][0].arity(), 1);
    assert_eq!((symbols.name(0), symbols.name(1), symbols.len()), ("p", "a", 2));
}

#[test]
fn unicode_upper_case_makes_a_variable() {
    let mut arena = TermArena::new();
    let mut symbols = SymbolTable::new();
    let clauses = parse_problem("(clause (p Éa éa _ 1))", &mut arena, &mut symbols).unwrap();
    let args = &clauses[0][0].args;
    assert!(arena.is_var(args[0]));
    assert!(!arena.is_var(args[1]));
    assert!(arena.is_var(args[2]));
    assert!(!arena.is_var(args[3]));
    let clauses =
        parse_tptp_problem("cnf(c, axiom, p(Éa, éa, _, 'Q', 1)).", &mut arena, &mut symbols).unwrap();
    let args = &clauses[0][0].args;
    assert!(arena.is_var(args[0]));
    assert!(!arena.is_var(args[1]));
    assert!(arena.is_var(args[2]));
    // A quoted name is read by its first letter too.
    assert!(arena.is_var(args[3]));
    assert!(!arena.is_var(args[4]));
}

#[test]
fn names_keep_every_character() {
    let mut arena = TermArena::new();
    let mut symbols = SymbolTable::new();
    parse_tptp_problem("cnf(c, axiom, 'p (é,⊥)'(a/b*)).", &mut arena, &mut symbols).unwrap();
    assert_eq!(symbols.name(0), "a/b*");
    assert_eq!(symbols.name(1), "p (é,⊥)");
    parse_problem("(clause (q-'1' a/b*))", &mut arena, &mut symbols).unwrap();
    assert_eq!(symbols.name(2), "q-'1'");
    assert_eq!(symbols.len(), 3);
}

fn clause(id: u32, literals: Vec<Literal>, rule: InferenceRule, parents: Vec<u32>) -> Clause {
    Clause { id, literals, weight: 0, age: id, inference: InferenceInfo::from_rule(rule, parents) }
}

fn resolvent(id: u32, literals: Vec<Literal>, left: u32, right: u32, parents: Vec<u32>) -> Clause {
    let rule = InferenceRule::Resolution {
        left,
        left_lit: 0,
        right,
        right_lit: 0,
        unifier: Substitution::new(),
    };
    clause(id, literals, rule, parents)
}

#[test]
fn graph_errors_and_their_texts() {
    let mut dag = ProofDag::new();
    dag.insert(clause(0, vec![Literal::positive(0, vec![])], InferenceRule::Input, vec![])).unwrap();
    assert!(matches!(dag.certificate(), Err(DagError::NoBottom)));
    assert_eq!(
        dag.certificate().unwrap_err().describe(),
        "no clause with empty literal set (⊥) found in DAG"
    );
    assert!(dag.find_bottom().is_none());

    let again = dag.insert(clause(0, vec![], InferenceRule::Input, vec![])).unwrap_err();
    assert!(matches!(again, DagError::DuplicateId(0)));
    assert_eq!(again.describe(), "duplicate clause id 0");
    assert_eq!(dag.len(), 1);
    assert_eq!(dag.get(0).unwrap().num_literals(), 1);

    dag.insert(resolvent(7, vec![], 0, 3, vec![0, 3])).unwrap();
    let unknown = dag.validate().unwrap_err();
    assert!(matches!(unknown, DagError::UnknownParent { clause: 7, missing: 3 }));
    assert_eq!(unknown.describe(), "clause 7 references unknown parent 3");
}

#[test]
fn a_rule_that_names_other_parents_is_an_error() {
    let mut dag = ProofDag::new();
    dag.insert(clause(0, vec![Literal::positive(0, vec![])], InferenceRule::Input, vec![])).unwrap();
    dag.insert(clause(1, vec![Literal::negative(0, vec![])], InferenceRule::Input, vec![])).unwrap();
    dag.insert(resolvent(2, vec![], 0, 1, vec![0])).unwrap();
    let e = dag.validate().unwrap_err();
    assert_eq!(e.describe(), "clause 2: inference.parents = [0] but rule implies [0, 1]");

    // The order of the parents does not matter.
    let mut swapped = ProofDag::new();
    swapped.insert(clause(0, vec![], InferenceRule::Input, vec![])).unwrap();
    swapped.insert(clause(1, vec![], InferenceRule::Input, vec![])).unwrap();
    swapped.insert(resolvent(2, vec![], 0, 1, vec![1, 0])).unwrap();
    assert!(swapped.validate().is_ok());
}

#[test]
fn a_cycle_is_reported_with_its_path() {
    let mut dag = ProofDag::new();
    dag.insert(resolvent(4, vec![], 5, 5, vec![5, 5])).unwrap();
    dag.insert(resolvent(5, vec![], 4, 4, vec![4, 4])).unwrap();
    let e = dag.validate().unwrap_err();
    assert!(matches!(e, DagError::Cycle(_)));
    assert_eq!(e.describe(), "cycle detected: [4, 5, 4]");
}

#[test]
fn certificate_errors_and_their_texts() {
    let arena = TermArena::new();
    let none = write_beardag(&[], &arena, |_| String::new()).unwrap_err();
    assert!(matches!(none, BeardagError::EmptyCertificate));
    assert_eq!(none.describe(), "certificate is empty nothing to emit");

    let open = [clause(9, vec![Literal::positive(0, vec![])], InferenceRule::Input, vec![])];
    let e = write_beardag(&open, &arena, |_| "p".to_string()).unwrap_err();
    assert!(matches!(e, BeardagError::NotBottomTerminated { last_id: 9 }));
    assert_eq!(
        e.describe(),
        "certificate's last clause (9) is not  ⊥ — pass the output of ProofDag::certificate() directly, don't reorder it"
    );
}

#[test]
fn atoms_are_quoted_where_they_must_be() {
    assert_eq!(sexp_atom("socrates"), "socrates");
    assert_eq!(sexp_atom("a\\b"), "a\\b");
    assert_eq!(sexp_atom(""), "\"\"");
    assert_eq!(sexp_atom("my atom"), "\"my atom\"");
    assert_eq!(sexp_atom("a\u{a0}b"), "\"a\u{a0}b\"");
    assert_eq!(sexp_atom("f(x)"), "\"f(x)\"");
    assert_eq!(sexp_atom("a;b"), "\"a;b\"");
    assert_eq!(sexp_atom("\u{2003}"), "\"\u{2003}\"");
    assert_eq!(sexp_atom("a\u{200b}b"), "a\u{200b}b");
    assert_ne!(sexp_atom("a b"), sexp_atom("\"a b\""));
    assert_eq!(sexp_atom("say \"\\\""), "\"say \\\"\\\\\\\"\"");
}
