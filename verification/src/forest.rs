//! The distinct terms of an arena as a list of trees, and how building a term
//! makes it grow.
use crate::tree::{sizes, Tree};
use vstd::prelude::*;

verus! {

/// Distinct trees, each after its subtrees; the position of a tree is its id.
pub type Forest = Seq<Tree>;

/// Number of arguments.
pub open spec fn arity(t: Tree) -> nat {
    match t {
        Tree::Var(_) => 0,
        Tree::App(_, args) => args.len(),
    }
}

/// Number of arguments of all trees.
pub open spec fn arities(f: Forest) -> nat
    decreases f.len(),
{
    if f.len() == 0 {
        0
    } else {
        arities(f.drop_last()) + arity(f.last())
    }
}

/// Whether 32-bit numbers suffice for the trees and for their arguments.
pub open spec fn numbered(f: Forest) -> bool {
    f.len() <= u32::MAX && arities(f) <= u32::MAX
}

/// Whether the arguments of every tree are there.
pub open spec fn closed_forest(f: Forest) -> bool {
    forall|i: int, j: int|
        0 <= i < f.len() && f[i] is App && 0 <= j < f[i]->App_1.len() ==> f.contains(
            #[trigger] f[i]->App_1[j],
        )
}

/// The forest with `t` in it: at the end where it is new.
pub open spec fn with_tree(f: Forest, t: Tree) -> Forest {
    if f.contains(t) {
        f
    } else {
        f.push(t)
    }
}

/// The forest after building `t`: its arguments from left to right, then the
/// tree itself. What is there already is not built again.
pub open spec fn plant(f: Forest, t: Tree) -> Forest
    decreases t, 0nat,
{
    match t {
        Tree::Var(_) => with_tree(f, t),
        Tree::App(_, args) => with_tree(plant_list(f, args, args.len()), t),
    }
}

/// The forest after building the first `k` trees.
pub open spec fn plant_list(f: Forest, ts: Seq<Tree>, k: nat) -> Forest
    decreases ts, k,
{
    if 0 < k <= ts.len() {
        plant(plant_list(f, ts, (k - 1) as nat), ts[k - 1])
    } else {
        f
    }
}

/// A prefix of a prefix is a prefix.
pub proof fn lemma_prefix_trans<A>(a: Seq<A>, b: Seq<A>, c: Seq<A>)
    requires
        a.is_prefix_of(b),
        b.is_prefix_of(c),
    ensures
        a.is_prefix_of(c),
{
    assert forall|i: int| 0 <= i < a.len() implies a[i] == c[i] by {
        assert(a[i] == b[i] && b[i] == c[i]);
    }
    assert(a =~= c.subrange(0, a.len() as int));
}

proof fn lemma_arities_prefix(f: Forest, g: Forest)
    requires
        f.is_prefix_of(g),
    ensures
        arities(f) <= arities(g),
    decreases g.len(),
{
    if f.len() == g.len() {
        assert(f =~= g);
    } else {
        assert(f =~= g.drop_last().subrange(0, f.len() as int));
        lemma_arities_prefix(f, g.drop_last());
    }
}

/// Where numbers suffice for a forest, they suffice for what it grew from.
pub proof fn lemma_numbered_prefix(f: Forest, g: Forest)
    requires
        f.is_prefix_of(g),
        numbered(g),
    ensures
        numbered(f),
{
    lemma_arities_prefix(f, g);
}

pub(crate) proof fn lemma_with_tree(f: Forest, t: Tree)
    ensures
        f.is_prefix_of(with_tree(f, t)),
        with_tree(f, t).contains(t),
        with_tree(f, t).len() <= f.len() + 1,
        arities(with_tree(f, t)) <= arities(f) + arity(t),
{
    let g = with_tree(f, t);
    if !f.contains(t) {
        assert(g.drop_last() =~= f);
        assert(g[f.len() as int] == t);
        assert(f =~= g.subrange(0, f.len() as int));
    }
}

/// Building a tree keeps what is there, and takes at most as many numbers as
/// the tree has nodes.
pub proof fn planting_grows_by_size(f: Forest, t: Tree)
    ensures
        f.is_prefix_of(plant(f, t)),
        plant(f, t).contains(t),
        plant(f, t).len() <= f.len() + t.size(),
        arities(plant(f, t)) + 1 <= arities(f) + t.size(),
    decreases t, 0nat,
{
    match t {
        Tree::Var(_) => {
            lemma_with_tree(f, t);
        },
        Tree::App(_, args) => {
            lemma_plant_list(f, args, args.len());
            let g = plant_list(f, args, args.len());
            lemma_with_tree(g, t);
            lemma_prefix_trans(f, g, plant(f, t));
        },
    }
}

/// The same for a list of trees.
pub(crate) proof fn lemma_plant_list(f: Forest, ts: Seq<Tree>, k: nat)
    requires
        k <= ts.len(),
    ensures
        f.is_prefix_of(plant_list(f, ts, k)),
        forall|i: int| 0 <= i < k ==> plant_list(f, ts, k).contains(#[trigger] ts[i]),
        plant_list(f, ts, k).len() <= f.len() + sizes(ts, k),
        arities(plant_list(f, ts, k)) + k <= arities(f) + sizes(ts, k),
    decreases ts, k,
{
    if k == 0 {
        assert(f =~= f.subrange(0, f.len() as int));
    } else {
        let g = plant_list(f, ts, (k - 1) as nat);
        let h = plant_list(f, ts, k);
        lemma_plant_list(f, ts, (k - 1) as nat);
        planting_grows_by_size(g, ts[k - 1]);
        lemma_prefix_trans(f, g, h);
        assert forall|i: int| 0 <= i < k implies h.contains(#[trigger] ts[i]) by {
            if i < k - 1 {
                lemma_contains_prefix(g, h, ts[i]);
            }
        }
    }
}

pub(crate) proof fn lemma_contains_prefix(f: Forest, g: Forest, t: Tree)
    requires
        f.is_prefix_of(g),
        f.contains(t),
    ensures
        g.contains(t),
{
    let i = choose|i: int| 0 <= i < f.len() && f[i] == t;
    assert(g[i] == t);
}

/// Steps on the way to building a list.
pub(crate) proof fn lemma_plant_list_prefix(f: Forest, ts: Seq<Tree>, j: nat, k: nat)
    requires
        j <= k <= ts.len(),
    ensures
        plant_list(f, ts, j).is_prefix_of(plant_list(f, ts, k)),
    decreases k,
{
    let a = plant_list(f, ts, j);
    if j == k {
        assert(a =~= a.subrange(0, a.len() as int));
    } else {
        let b = plant_list(f, ts, (k - 1) as nat);
        lemma_plant_list_prefix(f, ts, j, (k - 1) as nat);
        planting_grows_by_size(b, ts[k - 1]);
        lemma_prefix_trans(a, b, plant_list(f, ts, k));
    }
}

/// A tree that is there is not built again.
pub proof fn planting_a_known_tree_changes_nothing(f: Forest, t: Tree)
    requires
        closed_forest(f),
        f.contains(t),
    ensures
        plant(f, t) == f,
    decreases t, 0nat,
{
    if let Tree::App(_, args) = t {
        let i = choose|i: int| 0 <= i < f.len() && f[i] == t;
        assert forall|j: int| 0 <= j < args.len() implies f.contains(#[trigger] args[j]) by {
            assert(f[i]->App_1[j] == args[j]);
        }
        lemma_plant_known_list(f, args, args.len());
    }
}

proof fn lemma_plant_known_list(f: Forest, ts: Seq<Tree>, k: nat)
    requires
        closed_forest(f),
        k <= ts.len(),
        forall|j: int| 0 <= j < ts.len() ==> f.contains(#[trigger] ts[j]),
    ensures
        plant_list(f, ts, k) == f,
    decreases ts, k,
{
    if k > 0 {
        lemma_plant_known_list(f, ts, (k - 1) as nat);
        planting_a_known_tree_changes_nothing(f, ts[k - 1]);
    }
}

/// Building a list starts with its first tree.
pub(crate) proof fn lemma_plant_cons(f: Forest, t: Tree, ts: Seq<Tree>, k: nat)
    requires
        k <= ts.len(),
    ensures
        plant_list(f, seq![t] + ts, k + 1) == plant_list(plant(f, t), ts, k),
    decreases k,
{
    let all = seq![t] + ts;
    if k == 0 {
        assert(plant_list(f, all, 0) == f);
        assert(all[0] == t);
    } else {
        lemma_plant_cons(f, t, ts, (k - 1) as nat);
        assert(all[k as int] == ts[k - 1]);
    }
}

spec fn vars_below(k: nat) -> Set<Tree> {
    Set::new(|t: Tree| t is Var && t->Var_0 < k)
}

proof fn lemma_vars_below(k: nat)
    requires
        k <= u32::MAX + 1,
    ensures
        vars_below(k).finite(),
        vars_below(k).len() == k,
    decreases k,
{
    if k == 0 {
        assert(vars_below(0) =~= Set::<Tree>::empty());
    } else {
        let j = (k - 1) as nat;
        lemma_vars_below(j);
        assert(vars_below(k) =~= vars_below(j).insert(Tree::Var(j as u32)));
    }
}

/// A forest with many variables is large.
pub(crate) proof fn lemma_many_vars(f: Forest, k: nat)
    requires
        k <= u32::MAX + 1,
        forall|v: u32| v < k ==> #[trigger] f.contains(Tree::Var(v)),
    ensures
        k <= f.len(),
{
    lemma_vars_below(k);
    assert(vars_below(k).subset_of(f.to_set())) by {
        assert forall|t: Tree| vars_below(k).contains(t) implies f.to_set().contains(t) by {
            assert(f.contains(Tree::Var(t->Var_0)));
        }
    }
    f.lemma_cardinality_of_set();
    vstd::set_lib::lemma_len_subset(vars_below(k), f.to_set());
}

} // verus!
