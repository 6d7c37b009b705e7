//! Which new names variables get: the least that are free, in the order in
//! which the variables first appear.
use crate::clause::{lits_have_var, Lit};
use crate::inference::{
    fresh_names, nth_free, renaming, skip, tree_vars, trees_vars, var_order, vars_of,
};
use crate::term::VarId;
use crate::tree::{any_has_var, Tree};
use vstd::prelude::*;

verus! {

/// The variables of a term from left to right, as often as they occur.
pub open spec fn occurrences(t: Tree) -> Seq<VarId>
    decreases t, 0nat,
{
    match t {
        Tree::Var(v) => seq![v],
        Tree::App(_, args) => occurrences_in(args, args.len()),
    }
}

/// The same for the first `k` terms.
pub open spec fn occurrences_in(ts: Seq<Tree>, k: nat) -> Seq<VarId>
    decreases ts, k,
{
    if 0 < k <= ts.len() {
        occurrences_in(ts, (k - 1) as nat) + occurrences(ts[k - 1])
    } else {
        Seq::empty()
    }
}

/// The same for the first `k` literals.
pub open spec fn clause_occurrences(ls: Seq<Lit>, k: nat) -> Seq<VarId>
    decreases k,
{
    if 0 < k <= ls.len() {
        clause_occurrences(ls, (k - 1) as nat) + occurrences_in(
            ls[k - 1].args,
            ls[k - 1].args.len(),
        )
    } else {
        Seq::empty()
    }
}

/// Whether `v` appears, and before any appearance of `w`.
pub open spec fn appears_before(xs: Seq<VarId>, v: VarId, w: VarId) -> bool {
    exists|a: int|
        0 <= a < xs.len() && #[trigger] xs[a] == v && forall|b: int|
            0 <= b <= a ==> #[trigger] xs[b] != w
}

/// The variables that were seen, and the new ones, each once.
spec fn seen_with(seen: Seq<VarId>, xs: Seq<VarId>) -> Seq<VarId>
    decreases xs.len(),
{
    if xs.len() == 0 {
        seen
    } else {
        let before = seen_with(seen, xs.drop_last());
        if before.contains(xs.last()) {
            before
        } else {
            before.push(xs.last())
        }
    }
}

proof fn lemma_seen_concat(seen: Seq<VarId>, a: Seq<VarId>, b: Seq<VarId>)
    ensures
        seen_with(seen, a + b) == seen_with(seen_with(seen, a), b),
    decreases b.len(),
{
    if b.len() == 0 {
        assert(a + b =~= a);
    } else {
        lemma_seen_concat(seen, a, b.drop_last());
        assert((a + b).drop_last() =~= a + b.drop_last());
        assert((a + b).last() == b.last());
    }
}

proof fn lemma_tree_seen(t: Tree, seen: Seq<VarId>)
    ensures
        tree_vars(t, seen) == seen_with(seen, occurrences(t)),
    decreases t, 0nat,
{
    match t {
        Tree::Var(v) => {
            assert(seq![v].drop_last() =~= Seq::<VarId>::empty());
            assert(seen_with(seen, Seq::<VarId>::empty()) == seen);
            assert(seq![v].last() == v);
        },
        Tree::App(_, args) => {
            lemma_trees_seen(args, args.len(), seen);
        },
    }
}

proof fn lemma_trees_seen(ts: Seq<Tree>, k: nat, seen: Seq<VarId>)
    requires
        k <= ts.len(),
    ensures
        trees_vars(ts, k, seen) == seen_with(seen, occurrences_in(ts, k)),
    decreases ts, k,
{
    if k > 0 {
        lemma_trees_seen(ts, (k - 1) as nat, seen);
        lemma_tree_seen(ts[k - 1], trees_vars(ts, (k - 1) as nat, seen));
        lemma_seen_concat(seen, occurrences_in(ts, (k - 1) as nat), occurrences(ts[k - 1]));
    }
}

proof fn lemma_clause_seen(ls: Seq<Lit>, k: nat)
    requires
        k <= ls.len(),
    ensures
        var_order(ls, k) == seen_with(Seq::empty(), clause_occurrences(ls, k)),
    decreases k,
{
    if k > 0 {
        lemma_clause_seen(ls, (k - 1) as nat);
        let args = ls[k - 1].args;
        lemma_trees_seen(args, args.len(), var_order(ls, (k - 1) as nat));
        lemma_seen_concat(
            Seq::empty(),
            clause_occurrences(ls, (k - 1) as nat),
            occurrences_in(args, args.len()),
        );
    }
}

proof fn lemma_contains_concat(a: Seq<VarId>, b: Seq<VarId>, v: VarId)
    ensures
        (a + b).contains(v) <==> a.contains(v) || b.contains(v),
{
    let c = a + b;
    if a.contains(v) {
        let i = choose|i: int| 0 <= i < a.len() && a[i] == v;
        assert(c[i] == v);
    }
    if b.contains(v) {
        let i = choose|i: int| 0 <= i < b.len() && b[i] == v;
        assert(c[a.len() + i] == v);
    }
}

proof fn lemma_occurs(t: Tree, v: VarId)
    ensures
        occurrences(t).contains(v) <==> t.has_var(v),
    decreases t, 0nat,
{
    match t {
        Tree::Var(w) => {
            assert(seq![w][0] == w);
        },
        Tree::App(_, args) => {
            lemma_occurs_in(args, args.len(), v);
        },
    }
}

proof fn lemma_occurs_in(ts: Seq<Tree>, k: nat, v: VarId)
    requires
        k <= ts.len(),
    ensures
        occurrences_in(ts, k).contains(v) <==> exists|i: int|
            0 <= i < k && (#[trigger] ts[i]).has_var(v),
    decreases ts, k,
{
    if k > 0 {
        lemma_occurs_in(ts, (k - 1) as nat, v);
        lemma_occurs(ts[k - 1], v);
        lemma_contains_concat(occurrences_in(ts, (k - 1) as nat), occurrences(ts[k - 1]), v);
    }
}

proof fn lemma_clause_occurs(ls: Seq<Lit>, k: nat, v: VarId)
    requires
        k <= ls.len(),
    ensures
        clause_occurrences(ls, k).contains(v) <==> exists|i: int|
            0 <= i < k && (#[trigger] ls[i]).has_var(v),
    decreases k,
{
    if k > 0 {
        let args = ls[k - 1].args;
        lemma_clause_occurs(ls, (k - 1) as nat, v);
        lemma_occurs_in(args, args.len(), v);
        assert(ls[k - 1].has_var(v) == any_has_var(args, v));
        lemma_contains_concat(
            clause_occurrences(ls, (k - 1) as nat),
            occurrences_in(args, args.len()),
            v,
        );
    }
}

proof fn lemma_seen_members(xs: Seq<VarId>)
    ensures
        seen_with(Seq::empty(), xs).no_duplicates(),
        forall|v: VarId| #[trigger] seen_with(Seq::empty(), xs).contains(v) <==> xs.contains(v),
    decreases xs.len(),
{
    let all = seen_with(Seq::empty(), xs);
    if xs.len() > 0 {
        lemma_seen_members(xs.drop_last());
        let before = seen_with(Seq::empty(), xs.drop_last());
        let x = xs.last();
        assert(xs =~= xs.drop_last() + seq![x]);
        assert forall|v: VarId| #[trigger] all.contains(v) <==> xs.contains(v) by {
            lemma_contains_concat(xs.drop_last(), seq![x], v);
            assert(seq![x][0] == x);
            assert(seq![x].contains(v) <==> v == x);
            assert(before.contains(v) <==> xs.drop_last().contains(v));
            if !before.contains(x) {
                lemma_contains_concat(before, seq![x], v);
                assert(before.push(x) =~= before + seq![x]);
            }
        }
    }
}

/// What appears first is seen first.
proof fn lemma_seen_order(xs: Seq<VarId>, v: VarId, w: VarId)
    requires
        appears_before(xs, v, w),
        xs.contains(w),
    ensures
        ({
            let all = seen_with(Seq::empty(), xs);
            &&& 0 <= all.index_of(v) < all.index_of(w) < all.len()
            &&& all[all.index_of(v)] == v
            &&& all[all.index_of(w)] == w
        }),
    decreases xs.len(),
{
    let all = seen_with(Seq::empty(), xs);
    let less = xs.drop_last();
    let before = seen_with(Seq::empty(), less);
    let x = xs.last();
    lemma_seen_members(xs);
    lemma_seen_members(less);
    let a = choose|a: int|
        0 <= a < xs.len() && #[trigger] xs[a] == v && forall|b: int|
            0 <= b <= a ==> #[trigger] xs[b] != w;
    let c = choose|c: int| 0 <= c < xs.len() && xs[c] == w;
    assert(a < c);
    assert(less[a] == v);
    assert(less.contains(v));
    assert(before.contains(v));
    assert(xs.contains(v)) by {
        assert(xs[a] == v);
    }
    assert(all.contains(v) && all.contains(w));
    let i = all.index_of(v);
    let j = all.index_of(w);
    assert(all[i] == v && all[j] == w);
    if less.contains(w) {
        assert forall|b: int| 0 <= b <= a implies #[trigger] less[b] != w by {
            assert(xs[b] != w);
        }
        assert(appears_before(less, v, w));
        lemma_seen_order(less, v, w);
        let i0 = before.index_of(v);
        let j0 = before.index_of(w);
        assert(all[i0] == before[i0] && all[j0] == before[j0]);
        assert(i == i0 && j == j0);
    } else {
        assert(x == w) by {
            if c < xs.len() - 1 {
                assert(less[c] == w);
            }
        }
        assert(!before.contains(w));
        let i0 = before.index_of(v);
        assert(before[i0] == v);
        assert(all[i0] == v && all[before.len() as int] == w);
        assert(i == i0 && j == before.len());
    }
}

/// Whether the name at `j` is before the one at `k`.
spec fn earlier(avoid: Set<VarId>, next: int, j: nat, k: nat) -> bool {
    skip(avoid, next, j + 1) <= u32::MAX && nth_free(avoid, next, j) < nth_free(avoid, next, k)
}

proof fn lemma_nth(avoid: Set<VarId>, next: int, k: nat)
    requires
        0 <= next,
        skip(avoid, next, k + 1) <= u32::MAX,
    ensures
        skip(avoid, next, k + 1) == nth_free(avoid, next, k) + 1,
        next <= nth_free(avoid, next, k) < u32::MAX,
        !avoid.contains(nth_free(avoid, next, k) as VarId),
        forall|j: nat| j < k ==> #[trigger] earlier(avoid, next, j, k),
        forall|n: int|
            next <= n < nth_free(avoid, next, k) ==> #[trigger] avoid.contains(n as VarId)
                || exists|j: nat| j < k && #[trigger] nth_free(avoid, next, j) == n,
    decreases u32::MAX - next,
{
    if next < u32::MAX {
        if avoid.contains(next as VarId) {
            lemma_nth(avoid, next + 1, k);
            assert forall|j: nat| j < k implies #[trigger] earlier(avoid, next, j, k) by {
                assert(earlier(avoid, next + 1, j, k));
            }
            assert forall|n: int| next <= n < nth_free(avoid, next, k) implies #[trigger]
                avoid.contains(n as VarId) || exists|j: nat|
                j < k && #[trigger] nth_free(avoid, next, j) == n by {
                if n > next && !avoid.contains(n as VarId) {
                    let j = choose|j: nat|
                        j < k && #[trigger] nth_free(avoid, next + 1, j) == n;
                    assert(nth_free(avoid, next, j) == n);
                }
            }
        } else if k > 0 {
            let m = (k - 1) as nat;
            lemma_nth(avoid, next + 1, m);
            assert(nth_free(avoid, next, 0) == next);
            assert forall|j: nat| j < k implies #[trigger] earlier(avoid, next, j, k) by {
                if j > 0 {
                    assert(earlier(avoid, next + 1, (j - 1) as nat, m));
                } else {
                    assert(skip(avoid, next + 1, 0) == next + 1);
                }
            }
            assert forall|n: int| next <= n < nth_free(avoid, next, k) implies #[trigger]
                avoid.contains(n as VarId) || exists|j: nat|
                j < k && #[trigger] nth_free(avoid, next, j) == n by {
                if n > next && !avoid.contains(n as VarId) {
                    let j = choose|j: nat|
                        j < m && #[trigger] nth_free(avoid, next + 1, j) == n;
                    assert(nth_free(avoid, next, j + 1) == n);
                } else if n == next {
                    assert(nth_free(avoid, next, 0) == n);
                }
            }
        } else {
            assert(skip(avoid, next + 1, 0) == next + 1);
        }
    }
}

/// What is known of the order of the variables of a clause.
proof fn lemma_order(ls: Seq<Lit>)
    ensures
        ({
            let order = var_order(ls, ls.len());
            &&& order.no_duplicates()
            &&& order.len() == vars_of(ls).len()
            &&& forall|v: VarId| #[trigger] order.contains(v) <==> vars_of(ls).contains(v)
        }),
{
    let order = var_order(ls, ls.len());
    let xs = clause_occurrences(ls, ls.len());
    lemma_clause_seen(ls, ls.len());
    lemma_seen_members(xs);
    assert forall|v: VarId| #[trigger] order.contains(v) <==> vars_of(ls).contains(v) by {
        lemma_clause_occurs(ls, ls.len(), v);
        assert(xs.contains(v) <==> lits_have_var(ls, v));
    }
    assert(order.to_set() =~= vars_of(ls));
    order.unique_seq_to_set();
}

/// A variable that appears before another gets the smaller new name.
pub proof fn variables_are_renamed_in_order(ls: Seq<Lit>, next: int, v: VarId, w: VarId)
    requires
        0 <= next,
        skip(vars_of(ls), next, vars_of(ls).len()) <= u32::MAX,
        appears_before(clause_occurrences(ls, ls.len()), v, w),
        lits_have_var(ls, w),
    ensures
        next <= renaming(ls, next)[v] < renaming(ls, next)[w],
{
    let order = var_order(ls, ls.len());
    let xs = clause_occurrences(ls, ls.len());
    let vs = vars_of(ls);
    lemma_order(ls);
    lemma_clause_seen(ls, ls.len());
    lemma_clause_occurs(ls, ls.len(), w);
    lemma_clause_occurs(ls, ls.len(), v);
    lemma_seen_order(xs, v, w);
    let a = choose|a: int|
        0 <= a < xs.len() && #[trigger] xs[a] == v && forall|b: int|
            0 <= b <= a ==> #[trigger] xs[b] != w;
    assert(xs.contains(v)) by {
        assert(xs[a] == v);
    }
    let i = order.index_of(v) as nat;
    let j = order.index_of(w) as nat;
    lemma_last(ls, next);
    lemma_nth_all(vs, next, vs.len(), j);
    lemma_nth(vs, next, j);
    assert(earlier(vs, next, i, j));
    lemma_nth(vs, next, i);
    assert(vs.contains(v) && vs.contains(w));
    assert(fresh_names(ls, next)[i as int] == nth_free(vs, next, i) as VarId);
    assert(fresh_names(ls, next)[j as int] == nth_free(vs, next, j) as VarId);
}

proof fn lemma_nth_all(avoid: Set<VarId>, next: int, n: nat, j: nat)
    requires
        0 <= next,
        j < n,
        skip(avoid, next, n) <= u32::MAX,
    ensures
        skip(avoid, next, j + 1) <= u32::MAX,
{
    let k = (n - 1) as nat;
    lemma_nth(avoid, next, k);
    if j < k {
        assert(earlier(avoid, next, j, k));
    }
}

proof fn lemma_last(ls: Seq<Lit>, next: int)
    requires
        0 <= next,
        skip(vars_of(ls), next, vars_of(ls).len()) <= u32::MAX,
    ensures
        vars_of(ls).len() > 0 ==> nth_free(vars_of(ls), next, (vars_of(ls).len() - 1) as nat) + 1
            == skip(vars_of(ls), next, vars_of(ls).len()),
{
    if vars_of(ls).len() > 0 {
        lemma_nth(vars_of(ls), next, (vars_of(ls).len() - 1) as nat);
    }
}

/// New names are the least that the generator has: each number that it passes
/// over is a variable of the clause itself, or the new name of another one.
pub proof fn new_names_are_the_least(ls: Seq<Lit>, next: int, v: VarId, n: VarId)
    requires
        0 <= next <= n,
        skip(vars_of(ls), next, vars_of(ls).len()) <= u32::MAX,
        lits_have_var(ls, v),
        n < renaming(ls, next)[v],
    ensures
        lits_have_var(ls, n) || exists|w: VarId|
            lits_have_var(ls, w) && #[trigger] renaming(ls, next)[w] == n,
{
    let order = var_order(ls, ls.len());
    let vs = vars_of(ls);
    lemma_order(ls);
    assert(vs.contains(v));
    assert(order.contains(v));
    let i = order.index_of(v) as nat;
    assert(order[i as int] == v);
    lemma_nth_all(vs, next, vs.len(), i);
    lemma_nth(vs, next, i);
    assert(fresh_names(ls, next)[i as int] == nth_free(vs, next, i) as VarId);
    let m = n as int;
    assert(next <= m < nth_free(vs, next, i));
    assert(vs.contains(m as VarId) || exists|j: nat|
        j < i && #[trigger] nth_free(vs, next, j) == m);
    if !vs.contains(n) {
        let j = choose|j: nat| j < i && #[trigger] nth_free(vs, next, j) == m;
        let w = order[j as int];
        assert(order.contains(w));
        assert(vs.contains(w));
        let k = order.index_of(w);
        assert(order[k] == w);
        assert(k == j);
        assert(fresh_names(ls, next)[j as int] == nth_free(vs, next, j) as VarId);
        assert(renaming(ls, next)[w] == n);
    }
}

} // verus!
