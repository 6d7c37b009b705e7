//! First-order terms as mathematical trees, and instantiation of their
//! variables. The arena of `term` stores such trees with sharing; every
//! contract on terms is stated over the trees.
use crate::term::{SymbolId, VarId};
use vstd::prelude::*;

verus! {

/// A first-order term: a variable, or a symbol applied to arguments. A
/// constant is an application without arguments.
pub enum Tree {
    Var(VarId),
    App(SymbolId, Seq<Tree>),
}

/// A total assignment of trees to variables.
pub type Assignment = spec_fn(VarId) -> Tree;

impl Tree {
    /// Number of symbol and variable occurrences.
    pub open spec fn size(self) -> nat
        decreases self, 0nat,
    {
        match self {
            Tree::Var(_) => 1,
            Tree::App(_, args) => 1 + sizes(args, args.len()),
        }
    }

    /// Height above the leaves: variables and constants have depth 0.
    pub open spec fn depth(self) -> nat
        decreases self, 0nat,
    {
        match self {
            Tree::Var(_) => 0,
            Tree::App(_, args) => if args.len() == 0 {
                0
            } else {
                1 + deepest(args, args.len())
            },
        }
    }

    /// Whether variable `v` occurs.
    pub open spec fn has_var(self, v: VarId) -> bool
        decreases self,
    {
        match self {
            Tree::Var(w) => w == v,
            Tree::App(_, args) => exists|i: int|
                0 <= i < args.len() && (#[trigger] args[i]).has_var(v),
        }
    }

    /// The tree with every variable `v` replaced by `tau(v)`.
    pub open spec fn inst(self, tau: Assignment) -> Tree
        decreases self,
    {
        match self {
            Tree::Var(v) => tau(v),
            Tree::App(f, args) => Tree::App(
                f,
                Seq::new(
                    args.len(),
                    |i: int|
                        if 0 <= i < args.len() {
                            args[i].inst(tau)
                        } else {
                            self
                        },
                ),
            ),
        }
    }
}

/// Sum of the sizes of the first `k` trees.
pub open spec fn sizes(ts: Seq<Tree>, k: nat) -> nat
    decreases ts, k,
{
    if 0 < k <= ts.len() {
        sizes(ts, (k - 1) as nat) + ts[k - 1].size()
    } else {
        0
    }
}

/// Largest depth among the first `k` trees, 0 when there are none.
pub open spec fn deepest(ts: Seq<Tree>, k: nat) -> nat
    decreases ts, k,
{
    if 0 < k <= ts.len() {
        let rest = deepest(ts, (k - 1) as nat);
        let d = ts[k - 1].depth();
        if d > rest {
            d
        } else {
            rest
        }
    } else {
        0
    }
}

/// Instantiates each tree of a sequence.
pub open spec fn inst_all(ts: Seq<Tree>, tau: Assignment) -> Seq<Tree> {
    Seq::new(ts.len(), |i: int| ts[i].inst(tau))
}

/// Whether variable `v` occurs in one of the trees.
pub open spec fn any_has_var(ts: Seq<Tree>, v: VarId) -> bool {
    exists|i: int| 0 <= i < ts.len() && (#[trigger] ts[i]).has_var(v)
}

/// Longer prefixes are at least as large.
pub proof fn lemma_sizes_monotonic(ts: Seq<Tree>, j: nat, k: nat)
    requires
        j <= k <= ts.len(),
    ensures
        sizes(ts, j) <= sizes(ts, k),
    decreases k,
{
    if j < k {
        lemma_sizes_monotonic(ts, j, (k - 1) as nat);
    }
}

/// Instantiation goes through applications.
pub proof fn lemma_inst_app(f: SymbolId, args: Seq<Tree>, tau: Assignment)
    ensures
        Tree::App(f, args).inst(tau) == Tree::App(f, inst_all(args, tau)),
{
    let t = Tree::App(f, args);
    assert(t.inst(tau)->App_1 =~= inst_all(args, tau));
}

/// Instances under assignments that agree on the variables of a tree are equal.
pub proof fn lemma_inst_agree(t: Tree, tau1: Assignment, tau2: Assignment)
    requires
        forall|v: VarId| t.has_var(v) ==> #[trigger] tau1(v) == tau2(v),
    ensures
        t.inst(tau1) == t.inst(tau2),
    decreases t,
{
    match t {
        Tree::Var(v) => {
            assert(t.has_var(v));
        },
        Tree::App(f, args) => {
            assert forall|i: int| 0 <= i < args.len() implies (#[trigger] args[i]).inst(tau1)
                == args[i].inst(tau2) by {
                assert forall|v: VarId| args[i].has_var(v) implies #[trigger] tau1(v) == tau2(
                    v,
                ) by {
                    assert(t.has_var(v));
                }
                lemma_inst_agree(args[i], tau1, tau2);
            }
            lemma_inst_app(f, args, tau1);
            lemma_inst_app(f, args, tau2);
            assert(inst_all(args, tau1) =~= inst_all(args, tau2));
        },
    }
}

/// Instantiating twice is instantiating once with the composed assignment.
pub proof fn lemma_inst_compose(t: Tree, tau: Assignment, rho: Assignment)
    ensures
        t.inst(tau).inst(rho) == t.inst(|v: VarId| tau(v).inst(rho)),
    decreases t,
{
    let both = |v: VarId| tau(v).inst(rho);
    match t {
        Tree::Var(v) => {},
        Tree::App(f, args) => {
            lemma_inst_app(f, args, tau);
            lemma_inst_app(f, inst_all(args, tau), rho);
            lemma_inst_app(f, args, both);
            assert forall|i: int| 0 <= i < args.len() implies (#[trigger] args[i]).inst(tau).inst(
                rho,
            ) == args[i].inst(both) by {
                lemma_inst_compose(args[i], tau, rho);
            }
            assert(inst_all(inst_all(args, tau), rho) =~= inst_all(args, both));
        },
    }
}

/// A variable occurs in an instance exactly where a variable of the tree is
/// assigned a tree that has it.
pub proof fn lemma_inst_has_var(t: Tree, tau: Assignment, v: VarId)
    ensures
        t.inst(tau).has_var(v) <==> exists|w: VarId| #[trigger]
            t.has_var(w) && tau(w).has_var(v),
    decreases t,
{
    match t {
        Tree::Var(w) => {
            assert(t.has_var(w));
        },
        Tree::App(f, args) => {
            lemma_inst_app(f, args, tau);
            let insts = inst_all(args, tau);
            assert forall|i: int| 0 <= i < args.len() implies ((#[trigger] args[i]).inst(
                tau,
            ).has_var(v) <==> exists|w: VarId| #[trigger] args[i].has_var(w) && tau(w).has_var(v))
            by {
                lemma_inst_has_var(args[i], tau, v);
            }
            if t.inst(tau).has_var(v) {
                let i = choose|i: int| 0 <= i < insts.len() && (#[trigger] insts[i]).has_var(v);
                assert(args[i].inst(tau).has_var(v));
                let w = choose|w: VarId| #[trigger] args[i].has_var(w) && tau(w).has_var(v);
                assert(t.has_var(w));
            }
            if exists|w: VarId| #[trigger] t.has_var(w) && tau(w).has_var(v) {
                let w = choose|w: VarId| #[trigger] t.has_var(w) && tau(w).has_var(v);
                let i = choose|i: int| 0 <= i < args.len() && (#[trigger] args[i]).has_var(w);
                assert(args[i].inst(tau).has_var(v));
                assert(insts[i].has_var(v));
            }
        },
    }
}

/// Every tree has at least one node.
pub proof fn lemma_size_positive(t: Tree)
    ensures
        t.size() >= 1,
{
}

/// An instance is at least as large as what is put in for one variable, and
/// larger where the tree is more than that variable.
pub proof fn lemma_inst_size(t: Tree, tau: Assignment, v: VarId)
    requires
        t.has_var(v),
    ensures
        t.inst(tau).size() >= tau(v).size(),
        t is App ==> t.inst(tau).size() > tau(v).size(),
    decreases t,
{
    if let Tree::App(f, args) = t {
        lemma_inst_app(f, args, tau);
        let insts = inst_all(args, tau);
        let i = choose|i: int| 0 <= i < args.len() && (#[trigger] args[i]).has_var(v);
        lemma_inst_size(args[i], tau, v);
        assert(sizes(insts, (i + 1) as nat) >= insts[i].size());
        lemma_sizes_monotonic(insts, (i + 1) as nat, insts.len());
    }
}

/// Instantiating every variable with itself changes nothing.
pub proof fn lemma_inst_identity(t: Tree, tau: Assignment)
    requires
        forall|v: VarId| t.has_var(v) ==> #[trigger] tau(v) == Tree::Var(v),
    ensures
        t.inst(tau) == t,
    decreases t,
{
    match t {
        Tree::Var(v) => {
            assert(t.has_var(v));
        },
        Tree::App(f, args) => {
            lemma_inst_app(f, args, tau);
            assert forall|i: int| 0 <= i < args.len() implies (#[trigger] args[i]).inst(tau)
                == args[i] by {
                assert forall|v: VarId| args[i].has_var(v) implies #[trigger] tau(v) == Tree::Var(
                    v,
                ) by {
                    assert(t.has_var(v));
                }
                lemma_inst_identity(args[i], tau);
            }
            assert(inst_all(args, tau) =~= args);
        },
    }
}

} // verus!
