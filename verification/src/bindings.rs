//! The theory of triangular substitutions: finite maps from variables to
//! trees whose bound variables may occur in other bindings.
//!
//! The first half defines, over trees, what following bindings, expanding a
//! term and unifying two terms compute, on every input on which they come to
//! an end. The second half shows that on bindings without cycles they always
//! do, and that unification then finds a most general unifier.
use crate::term::VarId;
use crate::tree::{
    inst_all, lemma_inst_agree, lemma_inst_app, lemma_inst_compose, lemma_inst_has_var,
    lemma_inst_size, lemma_size_positive, lemma_sizes_monotonic, sizes, Assignment, Tree,
};
use vstd::prelude::*;

verus! {

/// A finite map from variables to trees.
pub type Bindings = Map<VarId, Tree>;

/// Follows bindings from `t` to an application or an unbound variable. A
/// variable that was seen before ends the walk where it stands.
pub open spec fn walk(b: Bindings, t: Tree, seen: Set<VarId>) -> Tree
    decreases b.dom().difference(seen).len(),
    when b.dom().finite()
{
    match t {
        Tree::App(_, _) => t,
        Tree::Var(v) => if seen.contains(v) || !b.contains_key(v) {
            t
        } else {
            proof {
                lemma_unseen_shrinks(b.dom(), seen, v);
            }
            walk(b, b[v], seen.insert(v))
        },
    }
}

pub proof fn lemma_unseen_shrinks(dom: Set<VarId>, seen: Set<VarId>, v: VarId)
    requires
        dom.finite(),
        dom.contains(v),
        !seen.contains(v),
    ensures
        dom.difference(seen.insert(v)).len() < dom.difference(seen).len(),
{
    assert(dom.difference(seen.insert(v)) =~= dom.difference(seen).remove(v));
}

/// The end of the walk from `t`.
pub open spec fn root(b: Bindings, t: Tree) -> Tree {
    walk(b, t, Set::empty())
}

/// Whether `v` occurs in what `t` expands to, looking `n` levels deep;
/// `None` where that is not deep enough.
pub open spec fn occ(b: Bindings, v: VarId, t: Tree, n: nat) -> Option<bool>
    decreases n, 0int,
{
    match root(b, t) {
        Tree::Var(w) => Some(w == v),
        Tree::App(_, args) => if n == 0 {
            None
        } else {
            occ_from(b, v, args, 0, (n - 1) as nat)
        },
    }
}

/// Whether `v` occurs in what one of the trees from position `k` on expands
/// to, from left to right up to the first that has it.
pub open spec fn occ_from(b: Bindings, v: VarId, ts: Seq<Tree>, k: nat, n: nat) -> Option<bool>
    decreases n, ts.len() - k + 1,
{
    if k >= ts.len() {
        Some(false)
    } else {
        match occ(b, v, ts[k as int], n) {
            None => None,
            Some(true) => Some(true),
            Some(false) => occ_from(b, v, ts, k + 1, n),
        }
    }
}

/// Binds `v` to `t`; with an occurs check only where `v` does not occur in
/// what `t` expands to.
pub open spec fn bind_checked(
    b: Bindings,
    v: VarId,
    t: Tree,
    check: bool,
    n: nat,
) -> Option<(bool, Bindings)> {
    if check {
        match occ(b, v, t, n) {
            None => None,
            Some(true) => Some((false, b)),
            Some(false) => Some((true, b.insert(v, t))),
        }
    } else {
        Some((true, b.insert(v, t)))
    }
}

/// Unification of two trees under `b`, at most `n` levels deep: whether it
/// succeeded, and the bindings at its end; `None` where `n` levels are not
/// enough. Bindings made before a failure stay.
pub open spec fn uni(b: Bindings, s: Tree, t: Tree, check: bool, n: nat) -> Option<(bool, Bindings)>
    decreases n, 0int,
{
    let s1 = root(b, s);
    let t1 = root(b, t);
    if s1 == t1 {
        Some((true, b))
    } else {
        match (s1, t1) {
            (Tree::Var(v), Tree::Var(_)) => Some((true, b.insert(v, t1))),
            (Tree::Var(v), Tree::App(_, _)) => bind_checked(b, v, t1, check, n),
            (Tree::App(_, _), Tree::Var(v)) => bind_checked(b, v, s1, check, n),
            (Tree::App(f, ss), Tree::App(g, ts)) => if f != g || ss.len() != ts.len() {
                Some((false, b))
            } else if n == 0 {
                None
            } else {
                uni_from(b, ss, ts, 0, check, (n - 1) as nat)
            },
        }
    }
}

/// Unification of two lists position by position from `k` on, up to the first
/// position that fails.
pub open spec fn uni_from(
    b: Bindings,
    ss: Seq<Tree>,
    ts: Seq<Tree>,
    k: nat,
    check: bool,
    n: nat,
) -> Option<(bool, Bindings)>
    decreases n, ss.len() - k + 1,
{
    if k >= ss.len() {
        Some((true, b))
    } else {
        match uni(b, ss[k as int], ts[k as int], check, n) {
            None => None,
            Some((ok, b1)) => if ok {
                uni_from(b1, ss, ts, k + 1, check, n)
            } else {
                Some((false, b1))
            },
        }
    }
}

/// `t` with every binding carried out, at most `n` levels deep.
pub open spec fn expand(b: Bindings, t: Tree, n: nat) -> Option<Tree>
    decreases n,
{
    match root(b, t) {
        Tree::Var(w) => Some(Tree::Var(w)),
        Tree::App(f, args) => if args.len() == 0 {
            Some(Tree::App(f, args))
        } else if n == 0 {
            None
        } else if forall|i: int|
            0 <= i < args.len() ==> expand(b, #[trigger] args[i], (n - 1) as nat) is Some {
            Some(
                Tree::App(
                    f,
                    Seq::new(args.len(), |i: int| expand(b, args[i], (n - 1) as nat)->Some_0),
                ),
            )
        } else {
            None
        },
    }
}

/// Whether carrying out all bindings in `t` comes to an end.
pub open spec fn expands(b: Bindings, t: Tree) -> bool {
    exists|n: nat| (#[trigger] expand(b, t, n)) is Some
}

/// `t` with every binding carried out.
pub open spec fn full(b: Bindings, t: Tree) -> Tree {
    expand(b, t, choose|n: nat| (#[trigger] expand(b, t, n)) is Some)->Some_0
}

/// Whether unification comes to an end.
pub open spec fn unify_halts(b: Bindings, s: Tree, t: Tree, check: bool) -> bool {
    exists|n: nat| (#[trigger] uni(b, s, t, check, n)) is Some
}

/// What unification returns, and the bindings that it leaves.
pub open spec fn unify_outcome(b: Bindings, s: Tree, t: Tree, check: bool) -> (bool, Bindings) {
    uni(b, s, t, check, choose|n: nat| (#[trigger] uni(b, s, t, check, n)) is Some)->Some_0
}

/// Whether unification of two lists, position by position, comes to an end.
pub open spec fn unify_lists_halts(b: Bindings, ss: Seq<Tree>, ts: Seq<Tree>) -> bool {
    exists|n: nat| (#[trigger] uni_from(b, ss, ts, 0, true, n)) is Some
}

/// What unification of two lists returns, and the bindings that it leaves.
pub open spec fn unify_lists_outcome(b: Bindings, ss: Seq<Tree>, ts: Seq<Tree>) -> (
    bool,
    Bindings,
) {
    uni_from(
        b,
        ss,
        ts,
        0,
        true,
        choose|n: nat| (#[trigger] uni_from(b, ss, ts, 0, true, n)) is Some,
    )->Some_0
}

// ---------------------------------------------------------------------------
// More depth never changes a result.
// ---------------------------------------------------------------------------
pub proof fn lemma_occ_more(b: Bindings, v: VarId, t: Tree, n: nat, m: nat)
    requires
        n <= m,
        occ(b, v, t, n) is Some,
    ensures
        occ(b, v, t, m) == occ(b, v, t, n),
    decreases n, 0int,
{
    if let Tree::App(_, args) = root(b, t) {
        lemma_occ_from_more(b, v, args, 0, (n - 1) as nat, (m - 1) as nat);
    }
}

pub proof fn lemma_occ_from_more(b: Bindings, v: VarId, ts: Seq<Tree>, k: nat, n: nat, m: nat)
    requires
        n <= m,
        occ_from(b, v, ts, k, n) is Some,
    ensures
        occ_from(b, v, ts, k, m) == occ_from(b, v, ts, k, n),
    decreases n, ts.len() - k + 1,
{
    if k < ts.len() {
        lemma_occ_more(b, v, ts[k as int], n, m);
        if occ(b, v, ts[k as int], n) == Some(false) {
            lemma_occ_from_more(b, v, ts, k + 1, n, m);
        }
    }
}

pub proof fn lemma_uni_more(b: Bindings, s: Tree, t: Tree, check: bool, n: nat, m: nat)
    requires
        n <= m,
        uni(b, s, t, check, n) is Some,
    ensures
        uni(b, s, t, check, m) == uni(b, s, t, check, n),
    decreases n, 0int,
{
    let s1 = root(b, s);
    let t1 = root(b, t);
    if s1 != t1 {
        match (s1, t1) {
            (Tree::Var(_), Tree::Var(_)) => {},
            (Tree::Var(v), Tree::App(_, _)) => {
                if check {
                    lemma_occ_more(b, v, t1, n, m);
                }
            },
            (Tree::App(_, _), Tree::Var(v)) => {
                if check {
                    lemma_occ_more(b, v, s1, n, m);
                }
            },
            (Tree::App(f, ss), Tree::App(g, ts)) => {
                if f == g && ss.len() == ts.len() {
                    lemma_uni_from_more(b, ss, ts, 0, check, (n - 1) as nat, (m - 1) as nat);
                }
            },
        }
    }
}

pub proof fn lemma_uni_from_more(
    b: Bindings,
    ss: Seq<Tree>,
    ts: Seq<Tree>,
    k: nat,
    check: bool,
    n: nat,
    m: nat,
)
    requires
        n <= m,
        uni_from(b, ss, ts, k, check, n) is Some,
    ensures
        uni_from(b, ss, ts, k, check, m) == uni_from(b, ss, ts, k, check, n),
    decreases n, ss.len() - k + 1,
{
    if k < ss.len() {
        lemma_uni_more(b, ss[k as int], ts[k as int], check, n, m);
        if let Some((true, b1)) = uni(b, ss[k as int], ts[k as int], check, n) {
            lemma_uni_from_more(b1, ss, ts, k + 1, check, n, m);
        }
    }
}

pub proof fn lemma_expand_more(b: Bindings, t: Tree, n: nat, m: nat)
    requires
        n <= m,
        expand(b, t, n) is Some,
    ensures
        expand(b, t, m) == expand(b, t, n),
    decreases n,
{
    if let Tree::App(f, args) = root(b, t) {
        if args.len() > 0 {
            assert forall|i: int| 0 <= i < args.len() implies expand(
                b,
                #[trigger] args[i],
                (m - 1) as nat,
            ) == expand(b, args[i], (n - 1) as nat) by {
                lemma_expand_more(b, args[i], (n - 1) as nat, (m - 1) as nat);
            }
            assert(expand(b, t, m)->Some_0->App_1 =~= expand(b, t, n)->Some_0->App_1);
        }
    }
}

/// Any depth that is enough gives the outcome.
pub proof fn lemma_unify_outcome(b: Bindings, s: Tree, t: Tree, check: bool, n: nat)
    requires
        uni(b, s, t, check, n) is Some,
    ensures
        unify_halts(b, s, t, check),
        unify_outcome(b, s, t, check) == uni(b, s, t, check, n)->Some_0,
{
    let m = choose|m: nat| (#[trigger] uni(b, s, t, check, m)) is Some;
    if n <= m {
        lemma_uni_more(b, s, t, check, n, m);
    } else {
        lemma_uni_more(b, s, t, check, m, n);
    }
}

/// Any depth that is enough gives the outcome.
pub proof fn lemma_unify_lists_outcome(b: Bindings, ss: Seq<Tree>, ts: Seq<Tree>, n: nat)
    requires
        uni_from(b, ss, ts, 0, true, n) is Some,
    ensures
        unify_lists_halts(b, ss, ts),
        unify_lists_outcome(b, ss, ts) == uni_from(b, ss, ts, 0, true, n)->Some_0,
{
    let m = choose|m: nat| (#[trigger] uni_from(b, ss, ts, 0, true, m)) is Some;
    if n <= m {
        lemma_uni_from_more(b, ss, ts, 0, true, n, m);
    } else {
        lemma_uni_from_more(b, ss, ts, 0, true, m, n);
    }
}

/// Any depth that is enough gives the expansion.
pub proof fn lemma_full(b: Bindings, t: Tree, n: nat)
    requires
        expand(b, t, n) is Some,
    ensures
        expands(b, t),
        full(b, t) == expand(b, t, n)->Some_0,
{
    let m = choose|m: nat| (#[trigger] expand(b, t, m)) is Some;
    if n <= m {
        lemma_expand_more(b, t, n, m);
    } else {
        lemma_expand_more(b, t, m, n);
    }
}

// ---------------------------------------------------------------------------
// Bindings without cycles.
// ---------------------------------------------------------------------------
/// A rank that falls from every bound variable to the bound variables of its
/// binding.
pub open spec fn ranked(b: Bindings, rank: spec_fn(VarId) -> nat) -> bool {
    forall|v: VarId, w: VarId|
        b.contains_key(v) && #[trigger] b[v].has_var(w) && b.contains_key(w) ==> rank(w) < rank(v)
}

/// Whether no variable is reached again by following bindings from it.
pub open spec fn acyclic(b: Bindings) -> bool {
    b.dom().finite() && exists|rank: spec_fn(VarId) -> nat| ranked(b, rank)
}

/// Whether the bound variables of `t` have rank below `k`.
pub open spec fn below(b: Bindings, rank: spec_fn(VarId) -> nat, t: Tree, k: nat) -> bool {
    forall|w: VarId| #[trigger] t.has_var(w) && b.contains_key(w) ==> rank(w) < k
}

/// The assignments that agree with every binding.
pub open spec fn solves(b: Bindings, tau: Assignment) -> bool {
    forall|v: VarId| b.contains_key(v) ==> tau(v) == (#[trigger] b[v]).inst(tau)
}

/// The assignment that carries out all bindings.
pub open spec fn closure(b: Bindings) -> Assignment {
    |v: VarId| full(b, Tree::Var(v))
}

/// A walk over ranked bindings does not depend on what was seen higher up,
/// ends in an application or an unbound variable, and keeps the instances
/// under all solutions.
proof fn lemma_walk(
    b: Bindings,
    rank: spec_fn(VarId) -> nat,
    t: Tree,
    seen1: Set<VarId>,
    seen2: Set<VarId>,
    k: nat,
)
    requires
        b.dom().finite(),
        ranked(b, rank),
        below(b, rank, t, k),
        forall|s: VarId| #[trigger] seen1.contains(s) ==> rank(s) >= k,
        forall|s: VarId| #[trigger] seen2.contains(s) ==> rank(s) >= k,
    ensures
        walk(b, t, seen1) == walk(b, t, seen2),
        below(b, rank, walk(b, t, seen1), k),
        walk(b, t, seen1) matches Tree::Var(w) ==> !b.contains_key(w),
        forall|tau: Assignment| #[trigger]
            solves(b, tau) ==> t.inst(tau) == walk(b, t, seen1).inst(tau),
    decreases k,
{
    if let Tree::Var(v) = t {
        if b.contains_key(v) {
            assert(t.has_var(v));
            assert(below(b, rank, b[v], rank(v)));
            lemma_walk(b, rank, b[v], seen1.insert(v), seen2.insert(v), rank(v));
        }
    }
}

/// Walking again from the end of a walk goes nowhere.
pub proof fn lemma_root_root(b: Bindings, t: Tree)
    requires
        acyclic(b),
    ensures
        root(b, root(b, t)) == root(b, t),
        root(b, t) matches Tree::Var(w) ==> !b.contains_key(w),
        forall|tau: Assignment| #[trigger] solves(b, tau) ==> t.inst(tau) == root(b, t).inst(tau),
{
    let rank = choose|rank: spec_fn(VarId) -> nat| ranked(b, rank);
    let k = lemma_rank_bound(b.dom(), rank);
    lemma_walk(b, rank, t, Set::empty(), Set::empty(), k);
}

/// A bound variable has the root of its binding.
pub proof fn lemma_root_var(b: Bindings, v: VarId)
    requires
        acyclic(b),
        b.contains_key(v),
    ensures
        root(b, Tree::Var(v)) == root(b, b[v]),
{
    let rank = choose|rank: spec_fn(VarId) -> nat| ranked(b, rank);
    assert(below(b, rank, b[v], rank(v)));
    lemma_walk(b, rank, b[v], Set::empty().insert(v), Set::empty(), rank(v));
}

/// Ranks on a finite set are bounded.
proof fn lemma_rank_bound(s: Set<VarId>, rank: spec_fn(VarId) -> nat) -> (k: nat)
    requires
        s.finite(),
    ensures
        forall|v: VarId| #[trigger] s.contains(v) ==> rank(v) < k,
    decreases s.len(),
{
    if s.len() == 0 {
        0
    } else {
        let v = s.choose();
        let k = lemma_rank_bound(s.remove(v), rank);
        let m = if rank(v) >= k {
            rank(v) + 1
        } else {
            k
        };
        assert forall|w: VarId| #[trigger] s.contains(w) implies rank(w) < m by {
            if w != v {
                assert(s.remove(v).contains(w));
            }
        }
        m
    }
}

proof fn lemma_expands_ranked(b: Bindings, rank: spec_fn(VarId) -> nat, t: Tree, k: nat)
    requires
        b.dom().finite(),
        ranked(b, rank),
        below(b, rank, t, k),
    ensures
        expands(b, t),
    decreases k, t, 0nat,
{
    match t {
        Tree::Var(v) => {
            if b.contains_key(v) {
                assert(t.has_var(v));
                lemma_expands_ranked(b, rank, b[v], rank(v));
                let n = choose|n: nat| (#[trigger] expand(b, b[v], n)) is Some;
                lemma_root_var(b, v);
                assert(expand(b, t, n) == expand(b, b[v], n));
            } else {
                assert(expand(b, t, 0) is Some);
            }
        },
        Tree::App(f, args) => {
            let n = lemma_expands_args(b, rank, t, args, args.len(), k);
            assert(expand(b, t, n + 1) is Some);
        },
    }
}

proof fn lemma_expands_args(
    b: Bindings,
    rank: spec_fn(VarId) -> nat,
    t: Tree,
    args: Seq<Tree>,
    j: nat,
    k: nat,
) -> (n: nat)
    requires
        b.dom().finite(),
        ranked(b, rank),
        below(b, rank, t, k),
        t is App,
        t->App_1 == args,
        j <= args.len(),
    ensures
        forall|i: int| 0 <= i < j ==> expand(b, #[trigger] args[i], n) is Some,
    decreases k, args, j,
{
    if j == 0 {
        0
    } else {
        let n1 = lemma_expands_args(b, rank, t, args, (j - 1) as nat, k);
        let a = args[j - 1];
        assert(below(b, rank, a, k)) by {
            assert forall|w: VarId| #[trigger] a.has_var(w) implies t.has_var(w) by {}
        }
        lemma_expands_ranked(b, rank, a, k);
        let n2 = choose|n: nat| (#[trigger] expand(b, a, n)) is Some;
        let n = if n1 >= n2 {
            n1
        } else {
            n2
        };
        assert forall|i: int| 0 <= i < j implies expand(b, #[trigger] args[i], n) is Some by {
            if i < j - 1 {
                lemma_expand_more(b, args[i], n1, n);
            } else {
                lemma_expand_more(b, a, n2, n);
            }
        }
        n
    }
}

/// Without cycles every term expands, by carrying out all bindings in it.
pub proof fn lemma_full_acyclic(b: Bindings, t: Tree)
    requires
        acyclic(b),
    ensures
        expands(b, t),
        t matches Tree::Var(v) ==> full(b, t) == if b.contains_key(v) {
            full(b, b[v])
        } else {
            t
        },
        t matches Tree::App(f, args) ==> full(b, t) == Tree::App(
            f,
            Seq::new(args.len(), |i: int| full(b, args[i])),
        ),
        full(b, root(b, t)) == full(b, t),
{
    let rank = choose|rank: spec_fn(VarId) -> nat| ranked(b, rank);
    let k = lemma_rank_bound(b.dom(), rank);
    lemma_expands_ranked(b, rank, t, k);
    let n = choose|n: nat| (#[trigger] expand(b, t, n)) is Some;
    lemma_full(b, t, n);
    lemma_root_root(b, t);
    assert(expand(b, root(b, t), n) == expand(b, t, n));
    lemma_full(b, root(b, t), n);
    match t {
        Tree::Var(v) => {
            if b.contains_key(v) {
                lemma_root_var(b, v);
                assert(expand(b, b[v], n) == expand(b, t, n));
                lemma_full(b, b[v], n);
            }
        },
        Tree::App(f, args) => {
            if args.len() > 0 {
                assert forall|i: int| 0 <= i < args.len() implies full(b, #[trigger] args[i])
                    == expand(b, args[i], (n - 1) as nat)->Some_0 by {
                    lemma_full(b, args[i], (n - 1) as nat);
                }
            }
            assert(full(b, t)->App_1 =~= Seq::new(args.len(), |i: int| full(b, args[i])));
        },
    }
}

/// Without cycles, carrying out all bindings is instantiation.
pub proof fn lemma_full_inst(b: Bindings, t: Tree)
    requires
        acyclic(b),
    ensures
        full(b, t) == t.inst(closure(b)),
    decreases t,
{
    lemma_full_acyclic(b, t);
    if let Tree::App(f, args) = t {
        lemma_inst_app(f, args, closure(b));
        assert forall|i: int| 0 <= i < args.len() implies full(b, #[trigger] args[i])
            == args[i].inst(closure(b)) by {
            lemma_full_inst(b, args[i]);
        }
        assert(Seq::new(args.len(), |i: int| full(b, args[i])) =~= inst_all(args, closure(b)));
    }
}

/// Carrying out all bindings is a solution.
pub proof fn lemma_closure_solves(b: Bindings)
    requires
        acyclic(b),
    ensures
        solves(b, closure(b)),
{
    assert forall|v: VarId| b.contains_key(v) implies closure(b)(v) == (#[trigger] b[v]).inst(
        closure(b),
    ) by {
        lemma_full_acyclic(b, Tree::Var(v));
        lemma_full_inst(b, b[v]);
    }
}

/// Every solution factors through the expansion.
pub proof fn lemma_solution_factors(b: Bindings, t: Tree, tau: Assignment)
    requires
        acyclic(b),
        solves(b, tau),
    ensures
        full(b, t).inst(tau) == t.inst(tau),
{
    let rank = choose|rank: spec_fn(VarId) -> nat| ranked(b, rank);
    let k = lemma_rank_bound(b.dom(), rank);
    lemma_full_inst(b, t);
    lemma_inst_compose(t, closure(b), tau);
    let both = |v: VarId| closure(b)(v).inst(tau);
    assert forall|v: VarId| t.has_var(v) implies #[trigger] both(v) == tau(v) by {
        lemma_solution_factors_var(b, rank, v, tau);
    }
    lemma_inst_agree(t, both, tau);
}

proof fn lemma_solution_factors_var(
    b: Bindings,
    rank: spec_fn(VarId) -> nat,
    v: VarId,
    tau: Assignment,
)
    requires
        acyclic(b),
        ranked(b, rank),
        solves(b, tau),
    ensures
        full(b, Tree::Var(v)).inst(tau) == tau(v),
    decreases rank(v), b.contains_key(v) as int,
{
    lemma_full_acyclic(b, Tree::Var(v));
    if b.contains_key(v) {
        let t = b[v];
        lemma_full_inst(b, t);
        lemma_inst_compose(t, closure(b), tau);
        let both = |w: VarId| closure(b)(w).inst(tau);
        assert forall|w: VarId| t.has_var(w) implies #[trigger] both(w) == tau(w) by {
            if b.contains_key(w) {
                lemma_solution_factors_var(b, rank, w, tau);
            } else {
                lemma_full_acyclic(b, Tree::Var(w));
            }
        }
        lemma_inst_agree(t, both, tau);
    }
}

// ---------------------------------------------------------------------------
// The occurs check.
// ---------------------------------------------------------------------------
spec fn any_from(b: Bindings, v: VarId, ts: Seq<Tree>, j: nat) -> bool {
    exists|i: int| j <= i < ts.len() && full(b, #[trigger] ts[i]).has_var(v)
}

proof fn lemma_occ_ranked(
    b: Bindings,
    rank: spec_fn(VarId) -> nat,
    v: VarId,
    t: Tree,
    k: nat,
) -> (n: nat)
    requires
        b.dom().finite(),
        ranked(b, rank),
        below(b, rank, t, k),
    ensures
        occ(b, v, t, n) == Some(full(b, t).has_var(v)),
    decreases k, t, 0int,
{
    lemma_full_acyclic(b, t);
    match t {
        Tree::Var(w) => {
            if b.contains_key(w) {
                assert(t.has_var(w));
                lemma_root_var(b, w);
                let n = lemma_occ_ranked(b, rank, v, b[w], rank(w));
                assert(occ(b, v, t, n) == occ(b, v, b[w], n));
                n
            } else {
                0
            }
        },
        Tree::App(f, args) => {
            let n = lemma_occ_args(b, rank, v, t, args, 0, k);
            let fulls = Seq::new(args.len(), |i: int| full(b, args[i]));
            assert(full(b, t) == Tree::App(f, fulls));
            if any_from(b, v, args, 0) {
                let i = choose|i: int|
                    0 <= i < args.len() && full(b, #[trigger] args[i]).has_var(v);
                assert(fulls[i].has_var(v));
            }
            if full(b, t).has_var(v) {
                let i = choose|i: int| 0 <= i < fulls.len() && (#[trigger] fulls[i]).has_var(v);
                assert(full(b, args[i]).has_var(v));
            }
            n + 1
        },
    }
}

proof fn lemma_occ_args(
    b: Bindings,
    rank: spec_fn(VarId) -> nat,
    v: VarId,
    t: Tree,
    args: Seq<Tree>,
    j: nat,
    k: nat,
) -> (n: nat)
    requires
        b.dom().finite(),
        ranked(b, rank),
        below(b, rank, t, k),
        t is App,
        t->App_1 == args,
        j <= args.len(),
    ensures
        occ_from(b, v, args, j, n) == Some(any_from(b, v, args, j)),
    decreases k, args, args.len() - j,
{
    if j == args.len() {
        0
    } else {
        let a = args[j as int];
        assert(below(b, rank, a, k)) by {
            assert forall|w: VarId| #[trigger] a.has_var(w) implies t.has_var(w) by {}
        }
        let n1 = lemma_occ_ranked(b, rank, v, a, k);
        if full(b, a).has_var(v) {
            n1
        } else {
            let n2 = lemma_occ_args(b, rank, v, t, args, j + 1, k);
            let n = if n1 >= n2 {
                n1
            } else {
                n2
            };
            lemma_occ_more(b, v, a, n1, n);
            lemma_occ_from_more(b, v, args, j + 1, n2, n);
            assert(any_from(b, v, args, j) == any_from(b, v, args, j + 1));
            n
        }
    }
}

/// Without cycles the occurs check ends, and says whether the variable occurs
/// in the expanded term.
pub proof fn lemma_occ(b: Bindings, v: VarId, t: Tree) -> (n: nat)
    requires
        acyclic(b),
    ensures
        occ(b, v, t, n) == Some(full(b, t).has_var(v)),
{
    let rank = choose|rank: spec_fn(VarId) -> nat| ranked(b, rank);
    let k = lemma_rank_bound(b.dom(), rank);
    lemma_occ_ranked(b, rank, v, t, k)
}

// ---------------------------------------------------------------------------
// One new binding.
// ---------------------------------------------------------------------------
/// Binding an unbound variable to a term whose expansion lacks it makes no
/// cycle.
pub proof fn lemma_bind_acyclic(b: Bindings, v: VarId, t: Tree)
    requires
        acyclic(b),
        !b.contains_key(v),
        !full(b, t).has_var(v),
    ensures
        acyclic(b.insert(v, t)),
{
    let rank = choose|rank: spec_fn(VarId) -> nat| ranked(b, rank);
    let m = lemma_rank_bound(b.dom(), rank);
    let reaches = |w: VarId| full(b, Tree::Var(w)).has_var(v);
    let rank1 = |w: VarId|
        if w == v {
            m
        } else if reaches(w) {
            rank(w) + m + 1
        } else {
            rank(w)
        };
    let b1 = b.insert(v, t);
    lemma_full_acyclic(b, Tree::Var(v));
    assert(closure(b)(v) == Tree::Var(v));
    assert(closure(b)(v).has_var(v));
    lemma_full_inst(b, t);
    lemma_inst_has_var(t, closure(b), v);
    assert forall|x: VarId, y: VarId|
        b1.contains_key(x) && #[trigger] b1[x].has_var(y) && b1.contains_key(y) implies rank1(y)
        < rank1(x) by {
        if x == v {
            assert(t.has_var(y));
            assert(!closure(b)(y).has_var(v));
            assert(!reaches(y));
        } else {
            assert(b[x].has_var(y));
            lemma_full_acyclic(b, Tree::Var(x));
            lemma_full_inst(b, b[x]);
            lemma_inst_has_var(b[x], closure(b), v);
            if y == v {
                assert(closure(b)(y).has_var(v));
                assert(reaches(x));
            } else {
                assert(rank(y) < rank(x));
                if reaches(y) {
                    assert(closure(b)(y).has_var(v));
                    assert(reaches(x));
                }
            }
        }
    }
    assert(ranked(b1, rank1));
}

/// The solutions after one more binding are those that meet it.
pub proof fn lemma_bind_solves(b: Bindings, v: VarId, t: Tree, tau: Assignment)
    requires
        !b.contains_key(v),
    ensures
        solves(b.insert(v, t), tau) <==> solves(b, tau) && tau(v) == t.inst(tau),
{
    let b1 = b.insert(v, t);
    if solves(b1, tau) {
        assert(b1[v] == t);
        assert forall|w: VarId| b.contains_key(w) implies tau(w) == (#[trigger] b[w]).inst(
            tau,
        ) by {
            assert(b1[w] == b[w]);
        }
    }
}

/// Where a variable occurs inside an application, no solution makes the two
/// equal.
proof fn lemma_occurs_clash(b: Bindings, v: VarId, t: Tree, tau: Assignment)
    requires
        acyclic(b),
        t is App,
        full(b, t).has_var(v),
        solves(b, tau),
    ensures
        tau(v) != t.inst(tau),
{
    lemma_full_acyclic(b, t);
    lemma_solution_factors(b, t, tau);
    lemma_inst_size(full(b, t), tau, v);
}

// ---------------------------------------------------------------------------
// Most general unifiers.
// ---------------------------------------------------------------------------
/// Every variable there is.
pub open spec fn all_vars() -> Set<VarId> {
    vstd::set_lib::set_int_range(0, u32::MAX + 1).map(|i: int| i as VarId)
}

pub proof fn lemma_all_vars()
    ensures
        all_vars().finite(),
        forall|v: VarId| #[trigger] all_vars().contains(v),
{
    vstd::set_lib::lemma_int_range(0, u32::MAX + 1);
    let range = vstd::set_lib::set_int_range(0, u32::MAX + 1);
    range.lemma_map_finite(|i: int| i as VarId);
    assert forall|v: VarId| #[trigger] all_vars().contains(v) by {
        assert(range.contains(v as int));
        assert((v as int) as VarId == v);
    }
}

/// How many variables are still unbound.
pub closed spec fn unbound(b: Bindings) -> nat {
    all_vars().difference(b.dom()).len()
}

proof fn lemma_bind_unbound(b: Bindings, v: VarId, t: Tree)
    requires
        !b.contains_key(v),
    ensures
        unbound(b.insert(v, t)) < unbound(b),
{
    lemma_all_vars();
    let before = all_vars().difference(b.dom());
    assert(all_vars().difference(b.insert(v, t).dom()) =~= before.remove(v));
    assert(before.contains(v));
}

/// `b1` holds a most general way to extend `b` so that `s` and `t` become
/// equal, or, where `ok` is false, there is no such way.
pub open spec fn most_general(b: Bindings, s: Tree, t: Tree, ok: bool, b1: Bindings) -> bool {
    &&& acyclic(b1)
    &&& b.submap_of(b1)
    &&& ok ==> forall|tau: Assignment| #[trigger]
        solves(b1, tau) <==> solves(b, tau) && s.inst(tau) == t.inst(tau)
    &&& !ok ==> forall|tau: Assignment| #[trigger]
        solves(b, tau) ==> s.inst(tau) != t.inst(tau)
}

/// Whether the lists agree under `tau` from position `k` on.
pub open spec fn agree_from(ss: Seq<Tree>, ts: Seq<Tree>, k: nat, tau: Assignment) -> bool {
    forall|i: int| k <= i < ss.len() ==> (#[trigger] ss[i]).inst(tau) == ts[i].inst(tau)
}

/// The same as [`most_general`] for lists of trees from position `k` on.
pub open spec fn most_general_from(
    b: Bindings,
    ss: Seq<Tree>,
    ts: Seq<Tree>,
    k: nat,
    ok: bool,
    b1: Bindings,
) -> bool {
    &&& acyclic(b1)
    &&& b.submap_of(b1)
    &&& ok ==> forall|tau: Assignment| #[trigger]
        solves(b1, tau) <==> solves(b, tau) && agree_from(ss, ts, k, tau)
    &&& !ok ==> forall|tau: Assignment| #[trigger]
        solves(b, tau) ==> !agree_from(ss, ts, k, tau)
}

pub closed spec fn rest(b: Bindings, ts: Seq<Tree>, k: nat) -> int {
    let fulls = Seq::new(ts.len(), |i: int| full(b, ts[i]));
    sizes(fulls, ts.len()) - sizes(fulls, k)
}

proof fn lemma_bind_step(b: Bindings, v: VarId, t: Tree, s0: Tree, t0: Tree, flip: bool) -> (n: nat)
    requires
        acyclic(b),
        root(b, if flip { t0 } else { s0 }) == Tree::Var(v),
        root(b, if flip { s0 } else { t0 }) == t,
        t is App,
    ensures
        bind_checked(b, v, t, true, n) is Some,
        ({
            let (ok, b1) = bind_checked(b, v, t, true, n)->Some_0;
            &&& most_general(b, s0, t0, ok, b1)
            &&& b1 == b || unbound(b1) < unbound(b)
        }),
{
    let n = lemma_occ(b, v, t);
    lemma_root_root(b, s0);
    lemma_root_root(b, t0);
    if full(b, t).has_var(v) {
        assert forall|tau: Assignment| #[trigger] solves(b, tau) implies s0.inst(tau) != t0.inst(
            tau,
        ) by {
            lemma_occurs_clash(b, v, t, tau);
        }
    } else {
        lemma_bind_acyclic(b, v, t);
        lemma_bind_unbound(b, v, t);
        assert forall|tau: Assignment| #[trigger]
            solves(b.insert(v, t), tau) <==> solves(b, tau) && s0.inst(tau) == t0.inst(tau) by {
            lemma_bind_solves(b, v, t, tau);
        }
    }
    n
}

/// Without cycles, unification with the occurs check ends and finds a most
/// general unifier, or shows that there is none.
pub proof fn lemma_unify(b: Bindings, s: Tree, t: Tree) -> (n: nat)
    requires
        acyclic(b),
    ensures
        uni(b, s, t, true, n) is Some,
        ({
            let (ok, b1) = uni(b, s, t, true, n)->Some_0;
            &&& most_general(b, s, t, ok, b1)
            &&& b1 == b || unbound(b1) < unbound(b)
        }),
    decreases unbound(b), full(b, s).size(), 0int,
{
    let s1 = root(b, s);
    let t1 = root(b, t);
    lemma_root_root(b, s);
    lemma_root_root(b, t);
    if s1 == t1 {
        0
    } else {
        match (s1, t1) {
            (Tree::Var(v), Tree::Var(w)) => {
                let b1 = b.insert(v, t1);
                lemma_full_acyclic(b, t1);
                lemma_bind_acyclic(b, v, t1);
                lemma_bind_unbound(b, v, t1);
                assert forall|tau: Assignment| #[trigger]
                    solves(b1, tau) <==> solves(b, tau) && s.inst(tau) == t.inst(tau) by {
                    lemma_bind_solves(b, v, t1, tau);
                }
                0
            },
            (Tree::Var(v), Tree::App(_, _)) => lemma_bind_step(b, v, t1, s, t, false),
            (Tree::App(_, _), Tree::Var(v)) => lemma_bind_step(b, v, s1, s, t, true),
            (Tree::App(f, ss), Tree::App(g, ts)) => {
                assert forall|tau: Assignment| #[trigger] solves(b, tau) implies s.inst(tau)
                    == Tree::App(f, inst_all(ss, tau)) && t.inst(tau) == Tree::App(
                    g,
                    inst_all(ts, tau),
                ) by {
                    lemma_inst_app(f, ss, tau);
                    lemma_inst_app(g, ts, tau);
                }
                if f != g || ss.len() != ts.len() {
                    assert forall|tau: Assignment| #[trigger] solves(b, tau) implies s.inst(tau)
                        != t.inst(tau) by {
                        assert(inst_all(ss, tau).len() == ss.len());
                        assert(inst_all(ts, tau).len() == ts.len());
                    }
                    0
                } else {
                    lemma_full_acyclic(b, s);
                    lemma_full_acyclic(b, s1);
                    let n = lemma_unify_from(b, ss, ts, 0);
                    let (ok, b1) = uni_from(b, ss, ts, 0, true, n)->Some_0;
                    assert(uni(b, s, t, true, n + 1) == uni_from(b, ss, ts, 0, true, n));
                    assert forall|tau: Assignment| #[trigger] solves(b, tau) implies (s.inst(tau)
                        == t.inst(tau) <==> agree_from(ss, ts, 0, tau)) by {
                        if s.inst(tau) == t.inst(tau) {
                            assert forall|i: int| 0 <= i < ss.len() implies (
                            #[trigger] ss[i]).inst(tau) == ts[i].inst(tau) by {
                                assert(inst_all(ss, tau)[i] == inst_all(ts, tau)[i]);
                            }
                        }
                        if agree_from(ss, ts, 0, tau) {
                            assert(inst_all(ss, tau) =~= inst_all(ts, tau));
                        }
                    }
                    n + 1
                }
            },
        }
    }
}

/// The same as [`lemma_unify`] for two lists from position `k` on.
pub proof fn lemma_unify_from(b: Bindings, ss: Seq<Tree>, ts: Seq<Tree>, k: nat) -> (n: nat)
    requires
        acyclic(b),
        ss.len() == ts.len(),
        k <= ss.len(),
    ensures
        uni_from(b, ss, ts, k, true, n) is Some,
        ({
            let (ok, b1) = uni_from(b, ss, ts, k, true, n)->Some_0;
            &&& most_general_from(b, ss, ts, k, ok, b1)
            &&& b1 == b || unbound(b1) < unbound(b)
        }),
    decreases unbound(b), rest(b, ss, k), 1int,
{
    if k == ss.len() {
        0
    } else {
        let fulls = Seq::new(ss.len(), |i: int| full(b, ss[i]));
        lemma_sizes_monotonic(fulls, k + 1, ss.len());
        lemma_size_positive(fulls[k as int]);
        let s = ss[k as int];
        let t = ts[k as int];
        let n1 = lemma_unify(b, s, t);
        let (ok1, b1) = uni(b, s, t, true, n1)->Some_0;
        if !ok1 {
            assert forall|tau: Assignment| #[trigger] solves(b, tau) implies !agree_from(
                ss,
                ts,
                k,
                tau,
            ) by {
                assert(ss[k as int].inst(tau) != ts[k as int].inst(tau));
            }
            n1
        } else {
            let n2 = lemma_unify_from(b1, ss, ts, k + 1);
            let n = if n1 >= n2 {
                n1
            } else {
                n2
            };
            lemma_uni_more(b, s, t, true, n1, n);
            lemma_uni_from_more(b1, ss, ts, k + 1, true, n2, n);
            let (ok, b2) = uni_from(b1, ss, ts, k + 1, true, n)->Some_0;
            assert forall|tau: Assignment|
                agree_from(ss, ts, k, tau) == (s.inst(tau) == t.inst(tau) && #[trigger] agree_from(
                    ss,
                    ts,
                    k + 1,
                    tau,
                )) by {
                if agree_from(ss, ts, k, tau) {
                    assert(ss[k as int].inst(tau) == ts[k as int].inst(tau));
                }
            }
            assert(b.submap_of(b2)) by {
                assert forall|v: VarId| #[trigger] b.dom().contains(v) implies b2.dom().contains(v)
                    && b[v] == b2[v] by {
                    assert(b1.dom().contains(v));
                }
            }
            if ok {
                assert forall|tau: Assignment| #[trigger]
                    solves(b2, tau) <==> solves(b, tau) && agree_from(ss, ts, k, tau) by {
                    assert(agree_from(ss, ts, k, tau) == (s.inst(tau) == t.inst(tau)
                        && agree_from(ss, ts, k + 1, tau)));
                    assert(solves(b1, tau) <==> solves(b, tau) && s.inst(tau) == t.inst(tau));
                }
            } else {
                assert forall|tau: Assignment| #[trigger] solves(b, tau) implies !agree_from(
                    ss,
                    ts,
                    k,
                    tau,
                ) by {
                    assert(agree_from(ss, ts, k, tau) == (s.inst(tau) == t.inst(tau)
                        && agree_from(ss, ts, k + 1, tau)));
                    assert(solves(b1, tau) <==> solves(b, tau) && s.inst(tau) == t.inst(tau));
                }
            }
            n
        }
    }
}

/// Where unification with the occurs check succeeds, it makes the same
/// bindings without.
pub(crate) proof fn lemma_unchecked(b: Bindings, s: Tree, t: Tree, n: nat)
    requires
        uni(b, s, t, true, n) matches Some((ok, _)) && ok,
    ensures
        uni(b, s, t, false, n) == uni(b, s, t, true, n),
    decreases n, 0int,
{
    if let (Tree::App(f, ss), Tree::App(g, ts)) = (root(b, s), root(b, t)) {
        if root(b, s) != root(b, t) {
            lemma_unchecked_from(b, ss, ts, 0, (n - 1) as nat);
        }
    }
}

proof fn lemma_unchecked_from(b: Bindings, ss: Seq<Tree>, ts: Seq<Tree>, k: nat, n: nat)
    requires
        uni_from(b, ss, ts, k, true, n) matches Some((ok, _)) && ok,
    ensures
        uni_from(b, ss, ts, k, false, n) == uni_from(b, ss, ts, k, true, n),
    decreases n, ss.len() - k + 1,
{
    if k < ss.len() {
        lemma_unchecked(b, ss[k as int], ts[k as int], n);
        let b1 = uni(b, ss[k as int], ts[k as int], true, n)->Some_0.1;
        lemma_unchecked_from(b1, ss, ts, k + 1, n);
    }
}

} // verus!
