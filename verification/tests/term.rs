use bear::term::{SymbolTable, TermArena, TermData};

/// Helper: setup symbol table with symbols frequently used in tests.
struct Fixture {
    symbols: SymbolTable,
    f: u32, // f/2
    g: u32, // g/1
    a: u32, // a/0 (constant)
    b: u32, // b/0 (constant)
}

fn fixture() -> Fixture {
    let mut symbols = SymbolTable::new();
    let f = symbols.intern("f");
    let g = symbols.intern("g");
    let a = symbols.intern("a");
    let b = symbols.intern("b");
    Fixture { symbols, f, g, a, b }
}

#[test]
fn variable_with_same_id_is_interned_to_same_term() {
    let mut arena = TermArena::new();
    let x1 = arena.mk_var(0);
    let x2 = arena.mk_var(0);
    let y = arena.mk_var(1);

    assert_eq!(x1, x2, "Var(0) created twice must get the same TermId");
    assert_ne!(x1, y, "Var(0) and Var(1) must have different TermIds");
    // Only 2 unique terms are actually stored (x1==x2 is counted once).
    assert_eq!(arena.len(), 2);
}

#[test]
fn ground_constant_is_interned() {
    let fx = fixture();
    let mut arena = TermArena::new();

    let a1 = arena.mk_app(fx.a, &[]);
    let a2 = arena.mk_app(fx.a, &[]);
    let b1 = arena.mk_app(fx.b, &[]);

    assert_eq!(a1, a2, "constant `a` created twice must have the same TermId");
    assert_ne!(a1, b1, "constants `a` and `b` must be different");
    assert_eq!(arena.len(), 2); // a, b
}

#[test]
fn identical_compound_terms_are_interned() {
    let fx = fixture();
    let mut arena = TermArena::new();
    let a = arena.mk_app(fx.a, &[]);
    let b = arena.mk_app(fx.b, &[]);

    // f(a, b) constructed twice separately -> must get the same TermId.
    let t1 = arena.mk_app(fx.f, &[a, b]);
    let t2 = arena.mk_app(fx.f, &[a, b]);
    assert_eq!(t1, t2);

    // f(b, a) different argument order -> different term.
    let t3 = arena.mk_app(fx.f, &[b, a]);
    assert_ne!(t1, t3);

    // g(a) and f(a, b) obviously have different symbol/arity.
    let t4 = arena.mk_app(fx.g, &[a]);
    assert_ne!(t1, t4);
}

#[test]
fn nested_terms_share_subterm_storage() {
    // f(g(a), g(a)) — subterm g(a) is used twice, must be shared
    // (not only same TermId, but indeed only 1 entry in the arena).
    let fx = fixture();
    let mut arena = TermArena::new();
    let a = arena.mk_app(fx.a, &[]);

    let ga_first = arena.mk_app(fx.g, &[a]);
    let ga_second = arena.mk_app(fx.g, &[a]);
    assert_eq!(ga_first, ga_second, "g(a) constructed twice must have the same TermId");

    let top = arena.mk_app(fx.f, &[ga_first, ga_second]);

    // Total unique terms: a, g(a), f(g(a), g(a)) = 3
    assert_eq!(arena.len(), 3);

    // args of `top` must both point to the same TermId (ga_first).
    let args = arena.args(top);
    assert_eq!(args, &[ga_first, ga_first]);
}

#[test]
fn get_returns_correct_term_data() {
    let fx = fixture();
    let mut arena = TermArena::new();
    let x = arena.mk_var(7);
    let a = arena.mk_app(fx.a, &[]);
    let fa = arena.mk_app(fx.f, &[a, x]);

    assert_eq!(arena.get(x), TermData::Var(7));
    assert!(arena.is_var(x));
    assert!(!arena.is_app(x));

    assert!(arena.is_app(a));
    assert_eq!(arena.symbol_of(a), Some(fx.a));
    assert_eq!(arena.args(a), &[] as &[u32]);

    assert_eq!(arena.symbol_of(fa), Some(fx.f));
    assert_eq!(arena.args(fa), &[a, x]);
}

#[test]
fn depth_and_size_are_computed_correctly() {
    let fx = fixture();
    let mut arena = TermArena::new();
    let a = arena.mk_app(fx.a, &[]); // depth 0, size 1
    let ga = arena.mk_app(fx.g, &[a]); // depth 1, size 2
    let fga_a = arena.mk_app(fx.f, &[ga, a]); // depth 2, size 4

    assert_eq!(arena.depth(a), 0);
    assert_eq!(arena.size(a), 1);

    assert_eq!(arena.depth(ga), 1);
    assert_eq!(arena.size(ga), 2);

    assert_eq!(arena.depth(fga_a), 2);
    assert_eq!(arena.size(fga_a), 4); // f, g, a, a
}

#[test]
fn display_prints_readable_term() {
    let fx = fixture();
    let mut arena = TermArena::new();
    let a = arena.mk_app(fx.a, &[]);
    let x = arena.mk_var(0);
    let term = arena.mk_app(fx.f, &[a, x]);

    assert_eq!(arena.display(term, &fx.symbols), "f(a, X0)");
}

#[test]
fn symbol_table_interns_names() {
    let mut symbols = SymbolTable::new();
    let f1 = symbols.intern("f");
    let f2 = symbols.intern("f");
    let g = symbols.intern("g");

    assert_eq!(f1, f2, "the same symbol name must get the same SymbolId");
    assert_ne!(f1, g);
    assert_eq!(symbols.name(f1), "f");
    assert_eq!(symbols.name(g), "g");
    assert_eq!(symbols.len(), 2);
}

#[test]
fn arena_is_empty_initially() {
    let arena = TermArena::new();
    assert!(arena.is_empty());
    assert_eq!(arena.len(), 0);
}
