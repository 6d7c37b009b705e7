//! What problem texts mean: which literals and clauses their names and lists
//! stand for, stated without the steps in which they are read.
use crate::clause::Lit;
use crate::lists::{
    is_plain, lemma_nest_list, lists_are_read, nest, nests, says, spelled, spelled_from, well_named,
    what_is_read_was_said, Nest,
};
use crate::parser::{
    clause_of, clauses_of, exprs_at, id_in, interned, is_negation, is_variable, lemma_clauses_grow,
    lemma_literals_grow, lemma_vars_in_range, literal_of, literals_of, predicate_of, problem_of,
    term_of, terms_of, tokens_from, Expr, Known, Scope,
};
use crate::text::upper_case;
use crate::tree::Tree;
use vstd::prelude::*;

verus! {

/// Whether a name is that of a variable.
pub open spec fn names_variable(n: Seq<char>) -> bool {
    n.len() > 0 && (upper_case(n[0]) || n[0] == '_')
}

/// The words that are names: of variables, or of anything else.
pub open spec fn picks(w: Seq<char>, variables: bool) -> bool {
    is_plain(w) && names_variable(w) == variables
}

/// The names in the order of their first appearance: those that were known,
/// then the new ones among the words.
pub open spec fn learned(
    names: Seq<Seq<char>>,
    ws: Seq<Seq<char>>,
    variables: bool,
) -> Seq<Seq<char>>
    decreases ws.len(),
{
    if ws.len() == 0 {
        names
    } else {
        let before = learned(names, ws.drop_last(), variables);
        if picks(ws.last(), variables) && !before.contains(ws.last()) {
            before.push(ws.last())
        } else {
            before
        }
    }
}

/// Whether `x` is a term: a name, or a list of a name that is no variable and
/// terms.
pub open spec fn is_term(x: Nest) -> bool
    decreases x,
{
    match x {
        Nest::Name(_) => true,
        Nest::List(items) => {
            &&& items.len() > 0
            &&& items[0] matches Nest::Name(n) && !names_variable(n)
            &&& forall|i: int| 1 <= i < items.len() ==> is_term(#[trigger] items[i])
        },
    }
}

/// Whether the term `x` stands for the tree, where symbols and variables have
/// these names.
pub open spec fn denotes(
    x: Nest,
    t: Tree,
    names: Seq<Seq<char>>,
    vars: Seq<Seq<char>>,
) -> bool
    decreases x,
{
    match (x, t) {
        (Nest::Name(n), Tree::Var(v)) => names_variable(n) && v < vars.len() && vars[v as int] == n,
        (Nest::Name(n), Tree::App(f, args)) => !names_variable(n) && f < names.len()
            && names[f as int] == n && args.len() == 0,
        (Nest::List(_), Tree::Var(_)) => false,
        (Nest::List(items), Tree::App(f, args)) => {
            &&& items.len() == args.len() + 1
            &&& f < names.len()
            &&& items[0] == Nest::Name(names[f as int])
            &&& forall|i: int|
                1 <= i < items.len() ==> denotes(#[trigger] items[i], args[i - 1], names, vars)
        },
    }
}

/// Whether `x` is a predicate with its arguments.
pub open spec fn is_atom(x: Nest) -> bool {
    is_term(x) && !(x matches Nest::Name(n) && names_variable(n))
}

/// Whether `x` is a list that begins with `not`.
pub open spec fn negates(x: Nest) -> bool {
    x matches Nest::List(items) && items.len() > 0 && items[0] == Nest::Name("not"@)
}

/// A literal without its `not`.
pub open spec fn unsigned(x: Nest) -> Nest {
    if negates(x) && x->List_0.len() == 2 {
        x->List_0[1]
    } else {
        x
    }
}

/// Whether `x` is a literal: a predicate with its arguments, or `not` and one.
pub open spec fn is_literal(x: Nest) -> bool {
    (negates(x) ==> x->List_0.len() == 2) && is_atom(unsigned(x))
}

/// Whether `x` stands for the literal: `not` makes it negative, and nothing
/// else does.
pub open spec fn literal_denotes(
    x: Nest,
    l: Lit,
    names: Seq<Seq<char>>,
    vars: Seq<Seq<char>>,
) -> bool {
    &&& l.positive == !negates(x)
    &&& denotes(unsigned(x), Tree::App(l.predicate, l.args), names, vars)
}

/// Whether `x` is a clause: a list of `clause` and literals.
pub open spec fn is_clause(x: Nest) -> bool {
    x matches Nest::List(items) && {
        &&& items.len() > 0
        &&& items[0] == Nest::Name("clause"@)
        &&& forall|i: int| 1 <= i < items.len() ==> is_literal(#[trigger] items[i])
    }
}

/// The words of the literals from position `k` on, without `not`.
pub open spec fn literal_words(items: Seq<Nest>, k: nat) -> Seq<Seq<char>>
    decreases items.len() - k,
{
    if k < items.len() {
        spelled(unsigned(items[k as int])) + literal_words(items, k + 1)
    } else {
        Seq::empty()
    }
}

/// Whether `x` stands for the clause. Its variables are numbered from 0 in the
/// order of their first appearance.
pub open spec fn clause_denotes(x: Nest, c: Seq<Lit>, names: Seq<Seq<char>>) -> bool {
    let items = x->List_0;
    let vars = learned(Seq::empty(), literal_words(items, 1), true);
    &&& x is List
    &&& c.len() + 1 == items.len()
    &&& forall|i: int|
        0 <= i < c.len() ==> literal_denotes(items[i + 1], #[trigger] c[i], names, vars)
}

/// The words of the clauses from position `k` on, without `clause` and `not`.
pub open spec fn clause_words(xs: Seq<Nest>, k: nat) -> Seq<Seq<char>>
    decreases xs.len() - k,
{
    if k < xs.len() {
        literal_words(xs[k as int]->List_0, 1) + clause_words(xs, k + 1)
    } else {
        Seq::empty()
    }
}

// ---------------------------------------------------------------------------
// Names in order of appearance.
// ---------------------------------------------------------------------------
pub(crate) proof fn lemma_learned_concat(
    names: Seq<Seq<char>>,
    a: Seq<Seq<char>>,
    b: Seq<Seq<char>>,
    v: bool,
)
    ensures
        learned(names, a + b, v) == learned(learned(names, a, v), b, v),
    decreases b.len(),
{
    if b.len() == 0 {
        assert(a + b =~= a);
    } else {
        lemma_learned_concat(names, a, b.drop_last(), v);
        assert((a + b).drop_last() =~= a + b.drop_last());
        assert((a + b).last() == b.last());
    }
}

pub(crate) proof fn lemma_learned_one(names: Seq<Seq<char>>, w: Seq<char>, v: bool)
    ensures
        learned(names, seq![w], v) == if picks(w, v) && !names.contains(w) {
            names.push(w)
        } else {
            names
        },
{
    assert(seq![w].drop_last() =~= Seq::<Seq<char>>::empty());
    assert(learned(names, Seq::<Seq<char>>::empty(), v) == names);
    assert(seq![w].last() == w);
}

pub(crate) proof fn lemma_learned_prefix(names: Seq<Seq<char>>, ws: Seq<Seq<char>>, v: bool)
    ensures
        names.is_prefix_of(learned(names, ws, v)),
    decreases ws.len(),
{
    if ws.len() > 0 {
        lemma_learned_prefix(names, ws.drop_last(), v);
        let before = learned(names, ws.drop_last(), v);
        let after = learned(names, ws, v);
        assert(after.subrange(0, names.len() as int) =~= before.subrange(0, names.len() as int));
    } else {
        assert(names =~= names.subrange(0, names.len() as int));
    }
}

/// The brackets of a list add no names.
pub(crate) proof fn lemma_learned_list(names: Seq<Seq<char>>, body: Seq<Seq<char>>, v: bool)
    ensures
        learned(names, seq![seq!['(']] + body + seq![seq![')']], v) == learned(names, body, v),
{
    let open = seq![seq!['(']];
    let close = seq![seq![')']];
    assert(seq!['('][0] == '(' && seq![')'][0] == ')');
    assert(!is_plain(seq!['(']) && !is_plain(seq![')']));
    lemma_learned_concat(names, open + body, close, v);
    lemma_learned_concat(names, open, body, v);
    lemma_learned_one(names, seq!['('], v);
    lemma_learned_one(learned(names, body, v), seq![')'], v);
}

/// What stands for a tree does so when more names are known.
pub(crate) proof fn lemma_denotes_grows(
    x: Nest,
    t: Tree,
    n1: Seq<Seq<char>>,
    v1: Seq<Seq<char>>,
    n2: Seq<Seq<char>>,
    v2: Seq<Seq<char>>,
)
    requires
        denotes(x, t, n1, v1),
        n1.is_prefix_of(n2),
        v1.is_prefix_of(v2),
    ensures
        denotes(x, t, n2, v2),
    decreases x,
{
    assert(forall|i: int| 0 <= i < n1.len() ==> n1[i] == n2[i]) by {
        assert forall|i: int| 0 <= i < n1.len() implies n1[i] == n2[i] by {
            assert(n2.subrange(0, n1.len() as int)[i] == n2[i]);
        }
    }
    assert(forall|i: int| 0 <= i < v1.len() ==> v1[i] == v2[i]) by {
        assert forall|i: int| 0 <= i < v1.len() implies v1[i] == v2[i] by {
            assert(v2.subrange(0, v1.len() as int)[i] == v2[i]);
        }
    }
    if let (Nest::List(items), Tree::App(f, args)) = (x, t) {
        assert forall|i: int| 1 <= i < items.len() implies denotes(
            #[trigger] items[i],
            args[i - 1],
            n2,
            v2,
        ) by {
            assert(denotes(items[i], args[i - 1], n1, v1));
            lemma_denotes_grows(items[i], args[i - 1], n1, v1, n2, v2);
        }
    }
}

/// A name is numbered where it is found.
pub(crate) proof fn lemma_numbered_name(names: Seq<Seq<char>>, n: Seq<char>, v: bool)
    requires
        picks(n, v),
    ensures
        interned(names, n) == learned(names, seq![n], v),
        interned(names, n).len() <= u32::MAX + 1 ==> id_in(names, n) < interned(names, n).len()
            && interned(names, n)[id_in(names, n) as int] == n,
{
    lemma_learned_one(names, n, v);
    let all = interned(names, n);
    if !names.contains(n) {
        assert(all[names.len() as int] == n);
    }
    assert(all.contains(n));
}

proof fn lemma_is_term_list(items: Seq<Nest>)
    ensures
        is_term(Nest::List(items)) == {
            &&& items.len() > 0
            &&& items[0] matches Nest::Name(n) && !names_variable(n)
            &&& forall|i: int| 1 <= i < items.len() ==> is_term(#[trigger] items[i])
        },
{
    let x = Nest::List(items);
    assert(x->List_0 == items);
    if is_term(x) {
        assert forall|i: int| 1 <= i < items.len() implies is_term(#[trigger] items[i]) by {
            assert(is_term(x->List_0[i]));
        }
    }
}

proof fn lemma_well_named_list(items: Seq<Nest>)
    requires
        well_named(Nest::List(items)),
    ensures
        forall|i: int| 0 <= i < items.len() ==> well_named(#[trigger] items[i]),
{
    let x = Nest::List(items);
    assert forall|i: int| 0 <= i < items.len() implies well_named(#[trigger] items[i]) by {
        assert(well_named(x->List_0[i]));
    }
}

// ---------------------------------------------------------------------------
// Terms.
// ---------------------------------------------------------------------------
/// What reading the expression `x` as a term does.
spec fn term_read(x: Expr, sc: Scope) -> bool {
    let (r, sc1) = term_of(x, sc);
    &&& is_term(nest(x)) <==> r is Ok
    &&& r matches Ok(t) ==> {
        &&& sc1.names == learned(sc.names, spelled(nest(x)), false)
        &&& sc1.vars == learned(sc.vars, spelled(nest(x)), true)
        &&& sc1.names.len() <= u32::MAX && sc1.vars.len() <= u32::MAX ==> denotes(
            nest(x),
            t,
            sc1.names,
            sc1.vars,
        )
    }
}

proof fn lemma_term(x: Expr, sc: Scope)
    requires
        well_named(nest(x)),
    ensures
        term_read(x, sc),
    decreases x, 0int,
{
    match x {
        Expr::Atom(_, name) => {
            assert(names_variable(name) == is_variable(name));
            lemma_learned_one(sc.names, name, false);
            lemma_learned_one(sc.vars, name, true);
            if names_variable(name) {
                lemma_numbered_name(sc.vars, name, true);
            } else {
                lemma_numbered_name(sc.names, name, false);
            }
        },
        Expr::List(line, items) => {
            lemma_nest_list(line, items);
            let ns = nests(items);
            lemma_is_term_list(ns);
            lemma_well_named_list(ns);
            if items.len() > 0 {
                assert(ns[0] == nest(items[0]));
                if let Expr::Atom(_, head) = items[0] {
                    assert(names_variable(head) == is_variable(head));
                    if !is_variable(head) {
                        lemma_application(items, head, sc);
                    }
                } else {
                    let inner = items[0]->List_1;
                    lemma_nest_list(items[0]->List_0, inner);
                    assert(ns[0] is List);
                }
            }
        },
    }
}

/// What reading the items of an application does.
proof fn lemma_application(items: Seq<Expr>, head: Seq<char>, sc: Scope)
    requires
        items.len() > 0,
        items[0] matches Expr::Atom(_, n) && n == head,
        is_plain(head),
        !is_variable(head),
        forall|i: int| 0 <= i < nests(items).len() ==> well_named(#[trigger] nests(items)[i]),
    ensures
        ({
            let ns = nests(items);
            let (r, sc2) = terms_of(items, 1, sc.with_name(head));
            &&& is_term(Nest::List(ns)) <==> r is Ok
            &&& r matches Ok(ts) ==> {
                &&& sc2.names == learned(sc.names, spelled(Nest::List(ns)), false)
                &&& sc2.vars == learned(sc.vars, spelled(Nest::List(ns)), true)
                &&& sc2.names.len() <= u32::MAX && sc2.vars.len() <= u32::MAX ==> denotes(
                    Nest::List(ns),
                    Tree::App(id_in(sc.names, head), ts),
                    sc2.names,
                    sc2.vars,
                )
            }
        }),
    decreases items, items.len() + 1,
{
    let ns = nests(items);
    let x = Nest::List(ns);
    let sc1 = sc.with_name(head);
    lemma_is_term_list(ns);
    lemma_terms(items, 1, sc1);
    assert(ns[0] == Nest::Name(head));
    assert(names_variable(head) == is_variable(head));
    assert(spelled_from(ns, 0) == seq![head] + spelled_from(ns, 1)) by {
        assert(spelled(ns[0]) == seq![head]);
    }
    let rest = spelled_from(ns, 1);
    lemma_numbered_name(sc.names, head, false);
    lemma_learned_one(sc.vars, head, true);
    lemma_learned_list(sc.names, seq![head] + rest, false);
    lemma_learned_list(sc.vars, seq![head] + rest, true);
    lemma_learned_concat(sc.names, seq![head], rest, false);
    lemma_learned_concat(sc.vars, seq![head], rest, true);
    let (r, sc2) = terms_of(items, 1, sc1);
    if let Ok(ts) = r {
        lemma_learned_prefix(sc1.names, rest, false);
        if sc2.names.len() <= u32::MAX && sc2.vars.len() <= u32::MAX {
            let f = id_in(sc.names, head);
            let t = Tree::App(f, ts);
            assert(sc1.names[f as int] == head);
            assert(sc2.names[f as int] == sc2.names.subrange(0, sc1.names.len() as int)[f as int]);
            assert forall|i: int| 1 <= i < ns.len() implies denotes(
                #[trigger] ns[i],
                ts[i - 1],
                sc2.names,
                sc2.vars,
            ) by {
                assert(denotes(nest(items[i]), ts[i - 1], sc2.names, sc2.vars));
            }
            assert(x->List_0 == ns && t->App_1 == ts);
            assert(denotes(x, t, sc2.names, sc2.vars));
        }
    }
    if r is Ok {
        assert forall|i: int| 1 <= i < ns.len() implies is_term(#[trigger] ns[i]) by {
            assert(is_term(nest(items[i])));
        }
    }
    if is_term(x) {
        assert forall|i: int| 1 <= i < items.len() implies is_term(nest(#[trigger] items[i])) by {
            assert(is_term(ns[i]));
        }
    }
}

proof fn lemma_terms(items: Seq<Expr>, k: nat, sc: Scope)
    requires
        k <= items.len(),
        forall|i: int| 0 <= i < nests(items).len() ==> well_named(#[trigger] nests(items)[i]),
    ensures
        ({
            let (r, sc2) = terms_of(items, k, sc);
            &&& r is Ok <==> forall|i: int| k <= i < items.len() ==> is_term(
                nest(#[trigger] items[i]),
            )
            &&& r matches Ok(ts) ==> {
                &&& ts.len() == items.len() - k
                &&& sc2.names == learned(sc.names, spelled_from(nests(items), k), false)
                &&& sc2.vars == learned(sc.vars, spelled_from(nests(items), k), true)
                &&& sc2.names.len() <= u32::MAX && sc2.vars.len() <= u32::MAX ==> forall|i: int|
                    k <= i < items.len() ==> denotes(
                        nest(#[trigger] items[i]),
                        ts[i - k],
                        sc2.names,
                        sc2.vars,
                    )
            }
        }),
    decreases items, items.len() - k,
{
    if k < items.len() {
        let x = items[k as int];
        let ns = nests(items);
        assert(ns[k as int] == nest(x));
        lemma_term(x, sc);
        let (r, sc1) = term_of(x, sc);
        if let Ok(t) = r {
            lemma_terms(items, k + 1, sc1);
            let (r2, sc2) = terms_of(items, k + 1, sc1);
            if let Ok(rest) = r2 {
                let ts = seq![t] + rest;
                let a = spelled(nest(x));
                let b = spelled_from(ns, k + 1);
                lemma_learned_concat(sc.names, a, b, false);
                lemma_learned_concat(sc.vars, a, b, true);
                lemma_learned_prefix(sc1.names, b, false);
                lemma_learned_prefix(sc1.vars, b, true);
                if sc2.names.len() <= u32::MAX && sc2.vars.len() <= u32::MAX {
                    lemma_denotes_grows(nest(x), t, sc1.names, sc1.vars, sc2.names, sc2.vars);
                    assert forall|i: int| k <= i < items.len() implies denotes(
                        nest(#[trigger] items[i]),
                        ts[i - k],
                        sc2.names,
                        sc2.vars,
                    ) by {
                        if i > k {
                            assert(ts[i - k] == rest[i - (k + 1)]);
                        }
                    }
                }
            }
        }
    }
}

// ---------------------------------------------------------------------------
// Literals and clauses.
// ---------------------------------------------------------------------------
proof fn lemma_predicate(x: Expr, sc: Scope)
    requires
        well_named(nest(x)),
    ensures
        ({
            let (r, sc1) = predicate_of(x, sc);
            &&& is_atom(nest(x)) <==> r is Ok
            &&& r matches Ok((p, args)) ==> {
                &&& sc1.names == learned(sc.names, spelled(nest(x)), false)
                &&& sc1.vars == learned(sc.vars, spelled(nest(x)), true)
                &&& sc1.names.len() <= u32::MAX && sc1.vars.len() <= u32::MAX ==> denotes(
                    nest(x),
                    Tree::App(p, args),
                    sc1.names,
                    sc1.vars,
                )
            }
        }),
{
    match x {
        Expr::Atom(_, name) => {
            assert(names_variable(name) == is_variable(name));
            lemma_learned_one(sc.names, name, false);
            lemma_learned_one(sc.vars, name, true);
            if !names_variable(name) {
                lemma_numbered_name(sc.names, name, false);
            }
        },
        Expr::List(line, items) => {
            lemma_nest_list(line, items);
            let ns = nests(items);
            lemma_is_term_list(ns);
            lemma_well_named_list(ns);
            if items.len() > 0 {
                assert(ns[0] == nest(items[0]));
                if let Expr::Atom(_, head) = items[0] {
                    assert(names_variable(head) == is_variable(head));
                    if !is_variable(head) {
                        lemma_application(items, head, sc);
                    }
                } else {
                    lemma_nest_list(items[0]->List_0, items[0]->List_1);
                    assert(ns[0] is List);
                }
            }
        },
    }
}

proof fn lemma_negates(x: Expr)
    ensures
        negates(nest(x)) == is_negation(x),
        is_negation(x) ==> nest(x)->List_0.len() == x->List_1.len(),
        is_negation(x) && x->List_1.len() == 2 ==> unsigned(nest(x)) == nest(x->List_1[1]),
        !is_negation(x) ==> unsigned(nest(x)) == nest(x),
{
    if let Expr::List(line, items) = x {
        lemma_nest_list(line, items);
        let ns = nests(items);
        if items.len() > 0 {
            assert(ns[0] == nest(items[0]));
            if let Expr::List(l, inner) = items[0] {
                lemma_nest_list(l, inner);
            }
        }
    }
}

proof fn lemma_literal(x: Expr, sc: Scope)
    requires
        well_named(nest(x)),
    ensures
        ({
            let (r, sc1) = literal_of(x, sc);
            let ws = spelled(unsigned(nest(x)));
            &&& is_literal(nest(x)) <==> r is Ok
            &&& r matches Ok(l) ==> {
                &&& sc1.names == learned(sc.names, ws, false)
                &&& sc1.vars == learned(sc.vars, ws, true)
                &&& sc1.names.len() <= u32::MAX && sc1.vars.len() <= u32::MAX ==> literal_denotes(
                    nest(x),
                    l,
                    sc1.names,
                    sc1.vars,
                )
            }
        }),
{
    lemma_negates(x);
    if is_negation(x) {
        let items = x->List_1;
        lemma_nest_list(x->List_0, items);
        lemma_well_named_list(nests(items));
        if items.len() == 2 {
            assert(nests(items)[1] == nest(items[1]));
            lemma_predicate(items[1], sc);
        }
    } else {
        lemma_predicate(x, sc);
    }
}

proof fn lemma_literals(items: Seq<Expr>, k: nat, sc: Scope)
    requires
        k <= items.len(),
        forall|i: int| 0 <= i < nests(items).len() ==> well_named(#[trigger] nests(items)[i]),
    ensures
        ({
            let (r, sc2) = literals_of(items, k, sc);
            &&& r is Ok <==> forall|i: int| k <= i < items.len() ==> is_literal(
                nest(#[trigger] items[i]),
            )
            &&& r matches Ok(ls) ==> {
                &&& ls.len() == items.len() - k
                &&& sc2.names == learned(sc.names, literal_words(nests(items), k), false)
                &&& sc2.vars == learned(sc.vars, literal_words(nests(items), k), true)
                &&& sc2.names.len() <= u32::MAX && sc2.vars.len() <= u32::MAX ==> forall|i: int|
                    k <= i < items.len() ==> literal_denotes(
                        nest(#[trigger] items[i]),
                        ls[i - k],
                        sc2.names,
                        sc2.vars,
                    )
            }
        }),
    decreases items.len() - k,
{
    if k < items.len() {
        let x = items[k as int];
        let ns = nests(items);
        assert(ns[k as int] == nest(x));
        lemma_literal(x, sc);
        let (r, sc1) = literal_of(x, sc);
        if let Ok(l) = r {
            lemma_literals(items, k + 1, sc1);
            let (r2, sc2) = literals_of(items, k + 1, sc1);
            if let Ok(rest) = r2 {
                let ls = seq![l] + rest;
                let a = spelled(unsigned(nest(x)));
                let b = literal_words(ns, k + 1);
                lemma_learned_concat(sc.names, a, b, false);
                lemma_learned_concat(sc.vars, a, b, true);
                lemma_learned_prefix(sc1.names, b, false);
                lemma_learned_prefix(sc1.vars, b, true);
                if sc2.names.len() <= u32::MAX && sc2.vars.len() <= u32::MAX {
                    lemma_denotes_grows(
                        unsigned(nest(x)),
                        Tree::App(l.predicate, l.args),
                        sc1.names,
                        sc1.vars,
                        sc2.names,
                        sc2.vars,
                    );
                    assert forall|i: int| k <= i < items.len() implies literal_denotes(
                        nest(#[trigger] items[i]),
                        ls[i - k],
                        sc2.names,
                        sc2.vars,
                    ) by {
                        if i > k {
                            assert(ls[i - k] == rest[i - (k + 1)]);
                        }
                    }
                }
            }
        }
    }
}

pub(crate) proof fn lemma_clause(x: Expr, kn: Known)
    requires
        well_named(nest(x)),
    ensures
        ({
            let (r, kn1) = clause_of(x, kn);
            &&& is_clause(nest(x)) <==> r is Ok
            &&& r matches Ok(c) ==> {
                &&& kn1.names == learned(kn.names, literal_words(nest(x)->List_0, 1), false)
                &&& kn1.in_range() ==> clause_denotes(nest(x), c, kn1.names)
            }
        }),
{
    if let Expr::List(line, items) = x {
        lemma_nest_list(line, items);
        let ns = nests(items);
        lemma_well_named_list(ns);
        if items.len() > 0 {
            assert(ns[0] == nest(items[0]));
            if let Expr::List(l, inner) = items[0] {
                lemma_nest_list(l, inner);
            } else {
                lemma_literals(items, 1, kn.scope());
                lemma_literals_grow(items, 1, kn.scope());
                let (r, sc) = literals_of(items, 1, kn.scope());
                if let Ok(c) = r {
                    if sc.known().in_range() {
                        assert(kn.scope().vars_built());
                        lemma_vars_in_range(sc);
                        assert forall|i: int| 0 <= i < c.len() implies literal_denotes(
                            ns[i + 1],
                            #[trigger] c[i],
                            sc.names,
                            sc.vars,
                        ) by {
                            assert(ns[i + 1] == nest(items[i + 1]));
                            assert(literal_denotes(
                                nest(items[i + 1]),
                                c[i + 1 - 1],
                                sc.names,
                                sc.vars,
                            ));
                        }
                        assert(kn.scope().vars == Seq::<Seq<char>>::empty());
                    }
                    assert forall|i: int| 1 <= i < ns.len() implies is_literal(
                        #[trigger] ns[i],
                    ) by {
                        assert(is_literal(nest(items[i])));
                    }
                }
                if is_clause(nest(x)) {
                    assert forall|i: int| 1 <= i < items.len() implies is_literal(
                        nest(#[trigger] items[i]),
                    ) by {
                        assert(is_literal(ns[i]));
                    }
                }
            }
        }
    }
}

proof fn lemma_clause_denotes_grows(
    x: Nest,
    c: Seq<Lit>,
    n1: Seq<Seq<char>>,
    n2: Seq<Seq<char>>,
)
    requires
        clause_denotes(x, c, n1),
        n1.is_prefix_of(n2),
    ensures
        clause_denotes(x, c, n2),
{
    let items = x->List_0;
    let vars = learned(Seq::empty(), literal_words(items, 1), true);
    assert(vars =~= vars.subrange(0, vars.len() as int));
    assert forall|i: int| 0 <= i < c.len() implies literal_denotes(
        items[i + 1],
        #[trigger] c[i],
        n2,
        vars,
    ) by {
        assert(literal_denotes(items[i + 1], c[i], n1, vars));
        lemma_denotes_grows(
            unsigned(items[i + 1]),
            Tree::App(c[i].predicate, c[i].args),
            n1,
            vars,
            n2,
            vars,
        );
    }
}

proof fn lemma_clauses(forms: Seq<Expr>, k: nat, kn: Known)
    requires
        k <= forms.len(),
        forall|i: int| 0 <= i < forms.len() ==> well_named(nest(#[trigger] forms[i])),
    ensures
        ({
            let (r, kn2) = clauses_of(forms, k, kn);
            &&& r is Ok <==> forall|i: int| k <= i < forms.len() ==> is_clause(
                nest(#[trigger] forms[i]),
            )
            &&& r matches Ok(cs) ==> {
                &&& cs.len() == forms.len() - k
                &&& kn2.names == learned(kn.names, clause_words(nests(forms), k), false)
                &&& kn2.in_range() ==> forall|i: int|
                    k <= i < forms.len() ==> clause_denotes(
                        nest(#[trigger] forms[i]),
                        cs[i - k],
                        kn2.names,
                    )
            }
        }),
    decreases forms.len() - k,
{
    if k < forms.len() {
        let x = forms[k as int];
        let ns = nests(forms);
        assert(ns[k as int] == nest(x));
        lemma_clause(x, kn);
        let (r, kn1) = clause_of(x, kn);
        if let Ok(c) = r {
            lemma_clauses(forms, k + 1, kn1);
            lemma_clauses_grow(forms, k + 1, kn1);
            let (r2, kn2) = clauses_of(forms, k + 1, kn1);
            if let Ok(rest) = r2 {
                let cs = seq![c] + rest;
                let a = literal_words(ns[k as int]->List_0, 1);
                let b = clause_words(ns, k + 1);
                lemma_learned_concat(kn.names, a, b, false);
                lemma_learned_prefix(kn1.names, b, false);
                if kn2.in_range() {
                    lemma_clause_denotes_grows(nest(x), c, kn1.names, kn2.names);
                    assert forall|i: int| k <= i < forms.len() implies clause_denotes(
                        nest(#[trigger] forms[i]),
                        cs[i - k],
                        kn2.names,
                    ) by {
                        if i > k {
                            assert(cs[i - k] == rest[i - (k + 1)]);
                        }
                    }
                }
            }
        }
    }
}

/// A text made of names and lists is a problem exactly where each of them is a
/// clause. It is read as the clauses that they stand for: `not` alone decides
/// the sign of a literal, and predicates, symbols and variables have all their
/// arguments, in order, whatever their number. Symbols and variables are
/// numbered in the order of their first appearance.
pub proof fn problems_are_read_as_written(text: Seq<char>, xs: Seq<Nest>, kn: Known)
    requires
        says(text, xs),
    ensures
        ({
            let (r, kn1) = problem_of(text, kn);
            &&& r is Ok <==> forall|i: int| 0 <= i < xs.len() ==> is_clause(#[trigger] xs[i])
            &&& r matches Ok(cs) ==> {
                &&& cs.len() == xs.len()
                &&& kn1.names == learned(kn.names, clause_words(xs, 0), false)
                &&& kn1.in_range() ==> forall|i: int|
                    0 <= i < cs.len() ==> clause_denotes(xs[i], #[trigger] cs[i], kn1.names)
            }
        }),
{
    lists_are_read(text, xs);
    let forms = exprs_at(tokens_from(text, 0, 1), 0)->Ok_0;
    assert forall|i: int| 0 <= i < forms.len() implies well_named(nest(#[trigger] forms[i])) by {
        assert(nests(forms)[i] == xs[i]);
    }
    lemma_clauses(forms, 0, kn);
    let (r, kn1) = problem_of(text, kn);
    if let Ok(cs) = r {
        assert forall|i: int| 0 <= i < xs.len() implies is_clause(#[trigger] xs[i]) by {
            assert(nests(forms)[i] == nest(forms[i]));
        }
        if kn1.in_range() {
            assert forall|i: int| 0 <= i < cs.len() implies clause_denotes(
                xs[i],
                #[trigger] cs[i],
                kn1.names,
            ) by {
                assert(nests(forms)[i] == nest(forms[i]));
                assert(clause_denotes(nest(forms[i]), cs[i - 0], kn1.names));
            }
        }
    }
    if forall|i: int| 0 <= i < xs.len() ==> is_clause(#[trigger] xs[i]) {
        assert forall|i: int| 0 <= i < forms.len() implies is_clause(nest(#[trigger] forms[i])) by {
            assert(nests(forms)[i] == xs[i]);
        }
    }
}

/// Whatever text is read as a problem is made of clauses; a text with
/// parentheses that do not match is none.
pub proof fn problems_are_made_of_clauses(text: Seq<char>, kn: Known)
    ensures
        problem_of(text, kn).0 is Ok <==> exists|xs: Seq<Nest>| #[trigger]
            says(text, xs) && forall|i: int| 0 <= i < xs.len() ==> is_clause(#[trigger] xs[i]),
{
    what_is_read_was_said(text);
    if problem_of(text, kn).0 is Ok {
        let forms = exprs_at(tokens_from(text, 0, 1), 0)->Ok_0;
        problems_are_read_as_written(text, nests(forms), kn);
        assert(says(text, nests(forms)));
    }
    if exists|xs: Seq<Nest>| #[trigger]
        says(text, xs) && forall|i: int| 0 <= i < xs.len() ==> is_clause(#[trigger] xs[i]) {
        let xs = choose|xs: Seq<Nest>| #[trigger]
            says(text, xs) && forall|i: int| 0 <= i < xs.len() ==> is_clause(#[trigger] xs[i]);
        problems_are_read_as_written(text, xs, kn);
    }
}

} // verus!
