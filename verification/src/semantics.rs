//! Truth of clauses in first-order structures, and the soundness of the
//! inference rules.
use crate::bindings::{
    acyclic, closure, lemma_closure_solves, lemma_unify_outcome, lemma_unseen_shrinks, root, solves,
    uni, uni_from, unify_halts, unify_outcome, walk, Bindings,
};
use crate::clause::{inst_lits, lits, InferenceView, Lit, LitIds, RuleView};
use crate::inference::{
    factoring_entry, is_renaming, ren, renamed_apart, resolution_entry, vars_of,
    within,
};
use crate::term::{SymbolId, TermArena, VarId};
use crate::tree::{inst_all, Assignment, Tree};
use crate::unify::tree_map;
use vstd::prelude::*;

verus! {

/// A first-order structure over the domain `D`.
#[verifier::reject_recursive_types(D)]
pub struct Model<D> {
    /// The value of a function symbol on arguments.
    pub fun: spec_fn(SymbolId, Seq<D>) -> D,
    /// Whether a predicate holds of arguments.
    pub pred: spec_fn(SymbolId, Seq<D>) -> bool,
}

/// The value of a term where the variables have the values `env`.
pub open spec fn eval<D>(m: Model<D>, t: Tree, env: spec_fn(VarId) -> D) -> D
    decreases t, 0nat,
{
    match t {
        Tree::Var(v) => env(v),
        Tree::App(f, args) => (m.fun)(f, eval_first(m, args, args.len(), env)),
    }
}

/// The values of the first `k` terms.
pub open spec fn eval_first<D>(
    m: Model<D>,
    ts: Seq<Tree>,
    k: nat,
    env: spec_fn(VarId) -> D,
) -> Seq<D>
    decreases ts, k,
{
    if 0 < k <= ts.len() {
        eval_first(m, ts, (k - 1) as nat, env).push(eval(m, ts[k - 1], env))
    } else {
        Seq::empty()
    }
}

/// The values of a list of terms.
pub open spec fn eval_all<D>(m: Model<D>, ts: Seq<Tree>, env: spec_fn(VarId) -> D) -> Seq<D> {
    eval_first(m, ts, ts.len(), env)
}

/// Whether a literal is true.
pub open spec fn lit_true<D>(m: Model<D>, l: Lit, env: spec_fn(VarId) -> D) -> bool {
    (m.pred)(l.predicate, eval_all(m, l.args, env)) == l.positive
}

/// Whether a literal of the clause is true.
pub open spec fn clause_true<D>(m: Model<D>, ls: Seq<Lit>, env: spec_fn(VarId) -> D) -> bool {
    exists|i: int| 0 <= i < ls.len() && lit_true(m, #[trigger] ls[i], env)
}

/// Whether the clause is true for all values of its variables.
pub open spec fn holds<D>(m: Model<D>, ls: Seq<Lit>) -> bool {
    forall|env: spec_fn(VarId) -> D| #[trigger] clause_true(m, ls, env)
}

/// The values of the variables that an assignment gives them.
pub open spec fn env_of<D>(m: Model<D>, tau: Assignment, env: spec_fn(VarId) -> D) -> spec_fn(
    VarId,
) -> D {
    |v: VarId| eval(m, tau(v), env)
}

/// The value of an instance is the value of the term where each variable has
/// the value of what is put in for it.
pub proof fn lemma_eval_inst<D>(m: Model<D>, t: Tree, tau: Assignment, env: spec_fn(VarId) -> D)
    ensures
        eval(m, t.inst(tau), env) == eval(m, t, env_of(m, tau, env)),
    decreases t, 0nat,
{
    if let Tree::App(f, args) = t {
        crate::tree::lemma_inst_app(f, args, tau);
        lemma_eval_inst_first(m, args, args.len(), tau, env);
    }
}

/// The same for the first `k` terms of a list.
pub proof fn lemma_eval_inst_first<D>(
    m: Model<D>,
    ts: Seq<Tree>,
    k: nat,
    tau: Assignment,
    env: spec_fn(VarId) -> D,
)
    requires
        k <= ts.len(),
    ensures
        eval_first(m, inst_all(ts, tau), k, env) == eval_first(m, ts, k, env_of(m, tau, env)),
    decreases ts, k,
{
    if k > 0 {
        lemma_eval_inst(m, ts[k - 1], tau, env);
        lemma_eval_inst_first(m, ts, (k - 1) as nat, tau, env);
    }
}

proof fn lemma_lit_inst<D>(m: Model<D>, l: Lit, tau: Assignment, env: spec_fn(VarId) -> D)
    ensures
        lit_true(m, l.inst(tau), env) == lit_true(m, l, env_of(m, tau, env)),
{
    lemma_eval_inst_first(m, l.args, l.args.len(), tau, env);
}

/// A clause that holds has a true literal in each instance.
proof fn lemma_true_literal<D>(
    m: Model<D>,
    ls: Seq<Lit>,
    tau: Assignment,
    env: spec_fn(VarId) -> D,
) -> (i: int)
    requires
        holds(m, ls),
    ensures
        0 <= i < ls.len(),
        lit_true(m, ls[i].inst(tau), env),
{
    assert(clause_true(m, ls, env_of(m, tau, env)));
    let i = choose|i: int|
        0 <= i < ls.len() && lit_true(m, #[trigger] ls[i], env_of(m, tau, env));
    lemma_lit_inst(m, ls[i], tau, env);
    i
}

/// Instances of a clause that holds hold.
pub proof fn instances_hold<D>(m: Model<D>, ls: Seq<Lit>, tau: Assignment)
    requires
        holds(m, ls),
    ensures
        holds(m, inst_lits(ls, tau)),
{
    assert forall|env: spec_fn(VarId) -> D| #[trigger] clause_true(m, inst_lits(ls, tau), env) by {
        let i = lemma_true_literal(m, ls, tau, env);
        assert(lit_true(m, inst_lits(ls, tau)[i], env));
    }
}

/// Renamed clauses hold where the clause holds.
pub proof fn renamings_hold<D>(m: Model<D>, ls: Seq<Lit>, d: Seq<Lit>, lo: int, hi: int)
    requires
        holds(m, ls),
        renamed_apart(ls, d, lo, hi),
    ensures
        holds(m, d),
{
    let r = choose|r: Map<VarId, VarId>| #[trigger]
        is_renaming(r, vars_of(ls)) && within(r, lo, hi) && d == inst_lits(ls, ren(r));
    instances_hold(m, ls, ren(r));
}

/// The empty clause holds nowhere.
pub proof fn empty_clause_fails<D>(m: Model<D>)
    ensures
        !holds(m, Seq::<Lit>::empty()),
{
    let env = |v: VarId| arbitrary::<D>();
    assert(!clause_true(m, Seq::<Lit>::empty(), env));
}

/// Resolution is sound: a resolvent holds wherever both parents hold.
pub proof fn resolution_is_sound<D>(
    m: Model<D>,
    id1: u32,
    id2: u32,
    d1: Seq<Lit>,
    d2: Seq<Lit>,
    arena: &TermArena,
    concl: Seq<LitIds>,
    info: InferenceView,
)
    requires
        resolution_entry(id1, id2, d1, d2, arena, concl, info),
        holds(m, d1),
        holds(m, d2),
    ensures
        holds(m, lits(concl, arena)),
{
    if let RuleView::Resolution { left_lit, right_lit, unifier, .. } = info.rule {
        let b = tree_map(unifier, arena);
        let tau = closure(b);
        let i = left_lit as int;
        let j = right_lit as int;
        lemma_closure_solves(b);
        assert(solves(b, tau));
        assert(inst_all(d1[i].args, tau) =~= inst_all(d2[j].args, tau));
        let left = d1.remove(i);
        let right = d2.remove(j);
        let out = inst_lits(left + right, tau);
        assert forall|env: spec_fn(VarId) -> D| #[trigger] clause_true(m, out, env) by {
            let x = lemma_true_literal(m, d1, tau, env);
            let y = lemma_true_literal(m, d2, tau, env);
            if x != i {
                let k = if x < i {
                    x
                } else {
                    x - 1
                };
                assert(left[k] == d1[x]);
                assert(out[k] == d1[x].inst(tau));
                assert(lit_true(m, out[k], env));
            } else if y != j {
                let k = if y < j {
                    left.len() + y
                } else {
                    left.len() + y - 1
                };
                assert(right[k - left.len()] == d2[y]);
                assert(out[k] == d2[y].inst(tau));
                assert(lit_true(m, out[k], env));
            } else {
                assert(false);
            }
        }
    }
}

/// Factoring is sound: a factor holds wherever the clause holds.
pub proof fn factoring_is_sound<D>(
    m: Model<D>,
    id: u32,
    d: Seq<Lit>,
    arena: &TermArena,
    concl: Seq<LitIds>,
    info: InferenceView,
)
    requires
        factoring_entry(id, d, arena, concl, info),
        holds(m, d),
    ensures
        holds(m, lits(concl, arena)),
{
    if let RuleView::Factoring { lit_a, lit_b, unifier, .. } = info.rule {
        let b = tree_map(unifier, arena);
        let tau = closure(b);
        let i = lit_a as int;
        let j = lit_b as int;
        lemma_closure_solves(b);
        assert(solves(b, tau));
        assert(inst_all(d[i].args, tau) =~= inst_all(d[j].args, tau));
        let left = d.remove(j);
        let out = inst_lits(left, tau);
        assert forall|env: spec_fn(VarId) -> D| #[trigger] clause_true(m, out, env) by {
            let x = lemma_true_literal(m, d, tau, env);
            let y = if x == j {
                i
            } else {
                x
            };
            assert(lit_true(m, d[y].inst(tau), env));
            let k = if y < j {
                y
            } else {
                y - 1
            };
            assert(left[k] == d[y]);
            assert(out[k] == d[y].inst(tau));
            assert(lit_true(m, out[k], env));
        }
    }
}

// ---------------------------------------------------------------------------
// Unification in structures. A structure may have solutions of bindings with
// cycles, so this speaks of unification without the occurs check too.
// ---------------------------------------------------------------------------
/// Whether the values of the variables agree with every binding.
pub open spec fn fits<D>(m: Model<D>, b: Bindings, env: spec_fn(VarId) -> D) -> bool {
    forall|v: VarId| b.contains_key(v) ==> env(v) == eval(m, #[trigger] b[v], env)
}

/// Whether different applications have different values, as they have in the
/// structure of all terms.
pub open spec fn is_free<D>(m: Model<D>) -> bool {
    forall|f: SymbolId, xs: Seq<D>, g: SymbolId, ys: Seq<D>| #[trigger]
        (m.fun)(f, xs) == #[trigger] (m.fun)(g, ys) ==> f == g && xs == ys
}

/// A rank that falls from every variable that is bound to a bound variable.
pub open spec fn chain_ranked(b: Bindings, rank: spec_fn(VarId) -> nat) -> bool {
    forall|v: VarId|
        b.contains_key(v) ==> (#[trigger] b[v] matches Tree::Var(w) ==> b.contains_key(w) ==> rank(w)
            < rank(v))
}

/// Whether no variable leads back to itself through variables alone.
pub open spec fn chains_end(b: Bindings) -> bool {
    b.dom().finite() && exists|rank: spec_fn(VarId) -> nat| chain_ranked(b, rank)
}

/// Bindings without cycles have no cycle of variables.
pub proof fn acyclic_chains_end(b: Bindings)
    requires
        acyclic(b),
    ensures
        chains_end(b),
{
    let rank = choose|rank: spec_fn(VarId) -> nat| crate::bindings::ranked(b, rank);
    assert forall|v: VarId| b.contains_key(v) implies (#[trigger] b[v] matches Tree::Var(w)
        ==> b.contains_key(w) ==> rank(w) < rank(v)) by {
        if let Tree::Var(w) = b[v] {
            assert(b[v].has_var(w));
        }
    }
    assert(chain_ranked(b, rank));
}

proof fn lemma_walk_eval<D>(
    m: Model<D>,
    b: Bindings,
    t: Tree,
    seen: Set<VarId>,
    env: spec_fn(VarId) -> D,
)
    requires
        b.dom().finite(),
        fits(m, b, env),
    ensures
        eval(m, walk(b, t, seen), env) == eval(m, t, env),
    decreases b.dom().difference(seen).len(),
{
    if let Tree::Var(v) = t {
        if !seen.contains(v) && b.contains_key(v) {
            lemma_unseen_shrinks(b.dom(), seen, v);
            lemma_walk_eval(m, b, b[v], seen.insert(v), env);
        }
    }
}

proof fn lemma_walk_ends(
    b: Bindings,
    rank: spec_fn(VarId) -> nat,
    t: Tree,
    seen: Set<VarId>,
    k: nat,
)
    requires
        b.dom().finite(),
        chain_ranked(b, rank),
        forall|w: VarId| t == Tree::Var(w) && b.contains_key(w) ==> #[trigger] rank(w) < k,
        forall|w: VarId| #[trigger] seen.contains(w) ==> rank(w) >= k,
    ensures
        walk(b, t, seen) matches Tree::Var(w) ==> !b.contains_key(w),
    decreases k,
{
    if let Tree::Var(v) = t {
        if b.contains_key(v) {
            assert(rank(v) < k);
            lemma_walk_ends(b, rank, b[v], seen.insert(v), rank(v));
        }
    }
}

proof fn lemma_root_unbound(b: Bindings, t: Tree)
    requires
        chains_end(b),
    ensures
        root(b, t) matches Tree::Var(w) ==> !b.contains_key(w),
{
    let rank = choose|rank: spec_fn(VarId) -> nat| chain_ranked(b, rank);
    let k = match t {
        Tree::Var(v) => rank(v) + 1,
        Tree::App(_, _) => 0,
    };
    lemma_walk_ends(b, rank, t, Set::empty(), k);
}

proof fn lemma_chains_insert(b: Bindings, v: VarId, t: Tree)
    requires
        chains_end(b),
        !b.contains_key(v),
        t != Tree::Var(v),
        t matches Tree::Var(w) ==> !b.contains_key(w),
    ensures
        chains_end(b.insert(v, t)),
        b.submap_of(b.insert(v, t)),
{
    let rank = choose|rank: spec_fn(VarId) -> nat| chain_ranked(b, rank);
    let more = |u: VarId|
        if u == v {
            0nat
        } else {
            rank(u) + 1
        };
    let c = b.insert(v, t);
    assert forall|u: VarId| c.contains_key(u) implies (#[trigger] c[u] matches Tree::Var(w)
        ==> c.contains_key(w) ==> more(w) < more(u)) by {
        if u != v {
            assert(c[u] == b[u]);
        }
    }
    assert(chain_ranked(c, more));
}

proof fn lemma_insert_fits<D>(
    m: Model<D>,
    b: Bindings,
    v: VarId,
    t: Tree,
    env: spec_fn(VarId) -> D,
)
    requires
        !b.contains_key(v),
    ensures
        fits(m, b.insert(v, t), env) <==> fits(m, b, env) && env(v) == eval(m, t, env),
{
    let c = b.insert(v, t);
    assert(c[v] == t);
    if fits(m, c, env) {
        assert forall|u: VarId| b.contains_key(u) implies env(u) == eval(
            m,
            #[trigger] b[u],
            env,
        ) by {
            assert(c[u] == b[u]);
        }
    }
}

proof fn lemma_submap_fits<D>(m: Model<D>, b: Bindings, c: Bindings, env: spec_fn(VarId) -> D)
    requires
        b.submap_of(c),
        fits(m, c, env),
    ensures
        fits(m, b, env),
{
    assert forall|u: VarId| b.contains_key(u) implies env(u) == eval(m, #[trigger] b[u], env) by {
        assert(b.dom().contains(u));
        assert(c.dom().contains(u));
        assert(c[u] == b[u]);
    }
}

/// Whether the values of the two lists agree from position `k` on.
spec fn values_agree<D>(
    m: Model<D>,
    ss: Seq<Tree>,
    ts: Seq<Tree>,
    k: nat,
    env: spec_fn(VarId) -> D,
) -> bool {
    forall|i: int| k <= i < ss.len() ==> eval(m, #[trigger] ss[i], env) == eval(m, ts[i], env)
}

proof fn lemma_eval_lists<D>(
    m: Model<D>,
    ss: Seq<Tree>,
    ts: Seq<Tree>,
    k: nat,
    env: spec_fn(VarId) -> D,
)
    requires
        ss.len() == ts.len(),
        k <= ss.len(),
    ensures
        eval_first(m, ss, k, env).len() == k,
        eval_first(m, ss, k, env) == eval_first(m, ts, k, env) <==> forall|i: int|
            0 <= i < k ==> eval(m, #[trigger] ss[i], env) == eval(m, ts[i], env),
    decreases k,
{
    if k > 0 {
        lemma_eval_lists(m, ss, ts, (k - 1) as nat, env);
        lemma_eval_lists(m, ts, ss, (k - 1) as nat, env);
        let xs = eval_first(m, ss, (k - 1) as nat, env);
        let ys = eval_first(m, ts, (k - 1) as nat, env);
        let x = eval(m, ss[k - 1], env);
        let y = eval(m, ts[k - 1], env);
        if xs.push(x) == ys.push(y) {
            assert(xs.push(x).drop_last() =~= xs);
            assert(ys.push(y).drop_last() =~= ys);
            assert(xs.push(x).last() == x && ys.push(y).last() == y);
        }
        if forall|i: int| 0 <= i < k ==> eval(m, #[trigger] ss[i], env) == eval(m, ts[i], env) {
            assert(eval(m, ss[k - 1], env) == eval(m, ts[k - 1], env));
        }
    }
}

proof fn lemma_uni_values<D>(
    m: Model<D>,
    b: Bindings,
    s: Tree,
    t: Tree,
    n: nat,
    env: spec_fn(VarId) -> D,
)
    requires
        chains_end(b),
        uni(b, s, t, false, n) is Some,
    ensures
        ({
            let (ok, b1) = uni(b, s, t, false, n)->Some_0;
            &&& chains_end(b1)
            &&& b.submap_of(b1)
            &&& ok && fits(m, b1, env) ==> eval(m, s, env) == eval(m, t, env)
            &&& is_free(m) && fits(m, b, env) && eval(m, s, env) == eval(m, t, env) ==> ok && fits(
                m,
                b1,
                env,
            )
        }),
    decreases n, 0int,
{
    let (ok, b1) = uni(b, s, t, false, n)->Some_0;
    let s1 = root(b, s);
    let t1 = root(b, t);
    lemma_root_unbound(b, s);
    lemma_root_unbound(b, t);
    if fits(m, b, env) {
        lemma_walk_eval(m, b, s, Set::empty(), env);
        lemma_walk_eval(m, b, t, Set::empty(), env);
    }
    if s1 != t1 {
        match (s1, t1) {
            (Tree::Var(v), _) => {
                lemma_chains_insert(b, v, t1);
                lemma_insert_fits(m, b, v, t1, env);
            },
            (Tree::App(_, _), Tree::Var(v)) => {
                lemma_chains_insert(b, v, s1);
                lemma_insert_fits(m, b, v, s1, env);
            },
            (Tree::App(f, ss), Tree::App(g, ts)) => {
                if f == g && ss.len() == ts.len() {
                    lemma_uni_from_values(m, b, ss, ts, 0, (n - 1) as nat, env);
                    lemma_eval_lists(m, ss, ts, ss.len(), env);
                    if fits(m, b1, env) {
                        lemma_submap_fits(m, b, b1, env);
                    }
                } else {
                    lemma_values_differ(m, f, ss, g, ts, env);
                }
            },
        }
    }
}

proof fn lemma_values_differ<D>(
    m: Model<D>,
    f: SymbolId,
    ss: Seq<Tree>,
    g: SymbolId,
    ts: Seq<Tree>,
    env: spec_fn(VarId) -> D,
)
    requires
        f != g || ss.len() != ts.len(),
    ensures
        is_free(m) ==> eval(m, Tree::App(f, ss), env) != eval(m, Tree::App(g, ts), env),
{
    lemma_eval_lists(m, ss, ss, ss.len(), env);
    lemma_eval_lists(m, ts, ts, ts.len(), env);
    let xs = eval_first(m, ss, ss.len(), env);
    let ys = eval_first(m, ts, ts.len(), env);
    if is_free(m) && (m.fun)(f, xs) == (m.fun)(g, ys) {
        assert(f == g && xs == ys);
    }
}

proof fn lemma_uni_from_values<D>(
    m: Model<D>,
    b: Bindings,
    ss: Seq<Tree>,
    ts: Seq<Tree>,
    k: nat,
    n: nat,
    env: spec_fn(VarId) -> D,
)
    requires
        chains_end(b),
        ss.len() == ts.len(),
        uni_from(b, ss, ts, k, false, n) is Some,
    ensures
        ({
            let (ok, b1) = uni_from(b, ss, ts, k, false, n)->Some_0;
            &&& chains_end(b1)
            &&& b.submap_of(b1)
            &&& ok && fits(m, b1, env) ==> values_agree(m, ss, ts, k, env)
            &&& is_free(m) && fits(m, b, env) && values_agree(m, ss, ts, k, env) ==> ok && fits(
                m,
                b1,
                env,
            )
        }),
    decreases n, ss.len() - k + 1,
{
    if k < ss.len() {
        let s = ss[k as int];
        let t = ts[k as int];
        lemma_uni_values(m, b, s, t, n, env);
        let (ok, b1) = uni(b, s, t, false, n)->Some_0;
        if ok {
            lemma_uni_from_values(m, b1, ss, ts, k + 1, n, env);
            let (ok2, b2) = uni_from(b1, ss, ts, k + 1, false, n)->Some_0;
            if fits(m, b2, env) {
                lemma_submap_fits(m, b1, b2, env);
            }
            assert(b.submap_of(b2)) by {
                assert forall|u: VarId| #[trigger] b.dom().contains(u) implies b2.dom().contains(u)
                    && b2[u] == b[u] by {
                    assert(b1.dom().contains(u));
                }
            }
            assert(values_agree(m, ss, ts, k, env) == (eval(m, s, env) == eval(m, t, env)
                && values_agree(m, ss, ts, k + 1, env)));
        } else if values_agree(m, ss, ts, k, env) {
            assert(eval(m, ss[k as int], env) == eval(m, ts[k as int], env));
        }
    }
}

/// Unification without the occurs check makes the two terms equal where it
/// succeeds: whatever gives the bound variables the values of their bindings
/// gives both terms the same value. It changes no binding that was there.
pub proof fn unchecked_unifier_equates<D>(
    m: Model<D>,
    b: Bindings,
    s: Tree,
    t: Tree,
    env: spec_fn(VarId) -> D,
)
    requires
        chains_end(b),
        unify_halts(b, s, t, false),
    ensures
        chains_end(unify_outcome(b, s, t, false).1),
        b.submap_of(unify_outcome(b, s, t, false).1),
        unify_outcome(b, s, t, false).0 && fits(m, unify_outcome(b, s, t, false).1, env) ==> fits(
            m,
            b,
            env,
        ) && eval(m, s, env) == eval(m, t, env),
{
    let n = choose|n: nat| (#[trigger] uni(b, s, t, false, n)) is Some;
    lemma_unify_outcome(b, s, t, false, n);
    lemma_uni_values(m, b, s, t, n, env);
    let b1 = unify_outcome(b, s, t, false).1;
    if fits(m, b1, env) {
        lemma_submap_fits(m, b, b1, env);
    }
}

/// Unification without the occurs check succeeds where the terms have a common
/// value in a structure in which different applications differ, and its
/// bindings leave every such value possible. So where it fails, there is none.
pub proof fn unchecked_unifier_is_most_general<D>(
    m: Model<D>,
    b: Bindings,
    s: Tree,
    t: Tree,
    env: spec_fn(VarId) -> D,
)
    requires
        chains_end(b),
        unify_halts(b, s, t, false),
        is_free(m),
        fits(m, b, env),
        eval(m, s, env) == eval(m, t, env),
    ensures
        unify_outcome(b, s, t, false).0,
        fits(m, unify_outcome(b, s, t, false).1, env),
{
    let n = choose|n: nat| (#[trigger] uni(b, s, t, false, n)) is Some;
    lemma_unify_outcome(b, s, t, false, n);
    lemma_uni_values(m, b, s, t, n, env);
}

/// Where unification without the occurs check leaves bindings without cycles,
/// its success means a unifier: the assignments that solve them are those that
/// solved the bindings before and make the two terms equal.
pub proof fn unchecked_success_is_a_unifier(b: Bindings, s: Tree, t: Tree, tau: Assignment)
    requires
        chains_end(b),
        unify_halts(b, s, t, false),
        unify_outcome(b, s, t, false).0,
    ensures
        solves(unify_outcome(b, s, t, false).1, tau) <==> solves(b, tau) && s.inst(tau) == t.inst(
            tau,
        ),
{
    let m = term_model();
    let b1 = unify_outcome(b, s, t, false).1;
    lemma_term_model(s, tau);
    lemma_term_model(t, tau);
    lemma_term_model_fits(b, tau);
    lemma_term_model_fits(b1, tau);
    unchecked_unifier_equates(m, b, s, t, tau);
    if solves(b, tau) && s.inst(tau) == t.inst(tau) {
        unchecked_unifier_is_most_general(m, b, s, t, tau);
    }
}

/// Where unification without the occurs check fails, no assignment that solves
/// the bindings makes the two terms equal.
pub proof fn unchecked_failure_means_no_unifier(b: Bindings, s: Tree, t: Tree, tau: Assignment)
    requires
        chains_end(b),
        unify_halts(b, s, t, false),
        !unify_outcome(b, s, t, false).0,
        solves(b, tau),
    ensures
        s.inst(tau) != t.inst(tau),
{
    lemma_term_model(s, tau);
    lemma_term_model(t, tau);
    lemma_term_model_fits(b, tau);
    if s.inst(tau) == t.inst(tau) {
        unchecked_unifier_is_most_general(term_model(), b, s, t, tau);
    }
}

/// The structure of all terms.
pub open spec fn term_model() -> Model<Tree> {
    Model {
        fun: |f: SymbolId, xs: Seq<Tree>| Tree::App(f, xs),
        pred: |p: SymbolId, xs: Seq<Tree>| false,
    }
}

proof fn lemma_term_model(t: Tree, tau: Assignment)
    ensures
        is_free(term_model()),
        eval(term_model(), t, tau) == t.inst(tau),
    decreases t, 0nat,
{
    if let Tree::App(f, args) = t {
        lemma_term_model_first(args, args.len(), tau);
        crate::tree::lemma_inst_app(f, args, tau);
        assert(eval_first(term_model(), args, args.len(), tau) =~= inst_all(args, tau));
    }
}

proof fn lemma_term_model_first(ts: Seq<Tree>, k: nat, tau: Assignment)
    requires
        k <= ts.len(),
    ensures
        eval_first(term_model(), ts, k, tau).len() == k,
        forall|i: int|
            0 <= i < k ==> #[trigger] eval_first(term_model(), ts, k, tau)[i] == ts[i].inst(tau),
    decreases ts, k,
{
    if k > 0 {
        lemma_term_model(ts[k - 1], tau);
        lemma_term_model_first(ts, (k - 1) as nat, tau);
    }
}

proof fn lemma_term_model_fits(b: Bindings, tau: Assignment)
    ensures
        fits(term_model(), b, tau) <==> solves(b, tau),
{
    assert forall|v: VarId| #[trigger] b.contains_key(v) implies eval(
        term_model(),
        b[v],
        tau,
    ) == b[v].inst(tau) by {
        lemma_term_model(b[v], tau);
    }
    if solves(b, tau) {
        assert forall|v: VarId| b.contains_key(v) implies tau(v) == eval(
            term_model(),
            #[trigger] b[v],
            tau,
        ) by {
            assert(b[v].inst(tau) == tau(v));
        }
    }
    if fits(term_model(), b, tau) {
        assert forall|v: VarId| b.contains_key(v) implies tau(v) == (#[trigger] b[v]).inst(tau) by {
            assert(eval(term_model(), b[v], tau) == tau(v));
        }
    }
}

/// Applications with different heads or different numbers of arguments do not
/// unify, with or without the occurs check, and nothing is bound.
pub proof fn different_heads_do_not_unify(
    b: Bindings,
    f: SymbolId,
    ss: Seq<Tree>,
    g: SymbolId,
    ts: Seq<Tree>,
    check: bool,
)
    requires
        b.dom().finite(),
        f != g || ss.len() != ts.len(),
    ensures
        unify_halts(b, Tree::App(f, ss), Tree::App(g, ts), check),
        unify_outcome(b, Tree::App(f, ss), Tree::App(g, ts), check) == (false, b),
{
    let s = Tree::App(f, ss);
    let t = Tree::App(g, ts);
    assert(s != t);
    assert(uni(b, s, t, check, 0) == Some((false, b)));
    lemma_unify_outcome(b, s, t, check, 0);
}

/// A term unifies with itself, with or without the occurs check, and nothing
/// is bound.
pub proof fn a_term_unifies_with_itself(b: Bindings, t: Tree, check: bool)
    ensures
        unify_halts(b, t, t, check),
        unify_outcome(b, t, t, check) == (true, b),
{
    assert(uni(b, t, t, check, 0) == Some((true, b)));
    lemma_unify_outcome(b, t, t, check, 0);
}

/// Of two different unbound variables the first is bound to the second, with
/// or without the occurs check.
pub proof fn the_first_variable_is_bound(b: Bindings, v: VarId, w: VarId, check: bool)
    requires
        b.dom().finite(),
        v != w,
        !b.contains_key(v),
        !b.contains_key(w),
    ensures
        unify_halts(b, Tree::Var(v), Tree::Var(w), check),
        unify_outcome(b, Tree::Var(v), Tree::Var(w), check) == (true, b.insert(v, Tree::Var(w))),
{
    let s = Tree::Var(v);
    let t = Tree::Var(w);
    assert(uni(b, s, t, check, 0) == Some((true, b.insert(v, t))));
    lemma_unify_outcome(b, s, t, check, 0);
}

} // verus!
