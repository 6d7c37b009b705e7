//! Sizes, depths and weights, and what a valid proof graph is, stated without
//! the steps in which they are computed.
use crate::clause::{weights, ClauseId, ClauseView, Lit, RuleView};
use crate::graph::{acyclic, cycle_is_not_acyclic, cycle_path};
use crate::proof_dag::{
    cycle_of_ids, dag_graph, distinct, fault, first_empty, first_unknown, has_id, implied_parents,
    lemma_has, lemma_positions, pos, positions, valid, DagErrorView,
};
use crate::term::{SymbolId, VarId};
use crate::tree::{deepest, sizes, Tree};
use vstd::prelude::*;

verus! {

/// A variable and a constant have size 1 and depth 0.
pub proof fn leaves_are_smallest(v: VarId, f: SymbolId)
    ensures
        Tree::Var(v).size() == 1,
        Tree::Var(v).depth() == 0,
        Tree::App(f, Seq::empty()).size() == 1,
        Tree::App(f, Seq::empty()).depth() == 0,
{
}

proof fn lemma_sizes_same(a: Seq<Tree>, b: Seq<Tree>, k: nat)
    requires
        k <= a.len(),
        k <= b.len(),
        forall|i: int| 0 <= i < k ==> a[i] == b[i],
    ensures
        sizes(a, k) == sizes(b, k),
    decreases k,
{
    if k > 0 {
        lemma_sizes_same(a, b, (k - 1) as nat);
    }
}

/// Every argument counts: one more makes the term larger by its size.
pub proof fn arguments_add_their_size(f: SymbolId, args: Seq<Tree>, x: Tree)
    ensures
        Tree::App(f, args.push(x)).size() == Tree::App(f, args).size() + x.size(),
{
    let more = args.push(x);
    lemma_sizes_same(more, args, args.len());
    assert(sizes(more, more.len()) == sizes(more, args.len()) + more[args.len() as int].size());
    assert(Tree::App(f, more)->App_1 == more && Tree::App(f, args)->App_1 == args);
}

proof fn lemma_deepest(ts: Seq<Tree>, k: nat)
    requires
        k <= ts.len(),
    ensures
        forall|i: int| 0 <= i < k ==> (#[trigger] ts[i]).depth() <= deepest(ts, k),
        k > 0 ==> exists|i: int| 0 <= i < k && (#[trigger] ts[i]).depth() == deepest(ts, k),
    decreases k,
{
    if k > 0 {
        lemma_deepest(ts, (k - 1) as nat);
        assert(ts[k - 1].depth() <= deepest(ts, k));
        if deepest(ts, k) != ts[k - 1].depth() {
            let i = choose|i: int|
                0 <= i < k - 1 && (#[trigger] ts[i]).depth() == deepest(ts, (k - 1) as nat);
            assert(ts[i].depth() == deepest(ts, k));
        }
    }
}

/// A term is deeper than each of its arguments, and by one than some of them.
pub proof fn terms_are_deeper_than_their_arguments(f: SymbolId, args: Seq<Tree>)
    ensures
        forall|i: int|
            0 <= i < args.len() ==> (#[trigger] args[i]).depth() < Tree::App(f, args).depth(),
        args.len() > 0 ==> exists|i: int|
            0 <= i < args.len() && (#[trigger] args[i]).depth() + 1 == Tree::App(f, args).depth(),
{
    let t = Tree::App(f, args);
    assert(t->App_1 == args);
    lemma_deepest(args, args.len());
    if args.len() > 0 {
        let i = choose|i: int|
            0 <= i < args.len() && (#[trigger] args[i]).depth() == deepest(args, args.len());
        assert(args[i].depth() + 1 == t.depth());
    }
}

/// A literal weighs as much as its predicate applied to its arguments has
/// symbols and variables.
pub proof fn literals_weigh_their_size(l: Lit)
    ensures
        l.weight() == Tree::App(l.predicate, l.args).size(),
{
    assert(Tree::App(l.predicate, l.args)->App_1 == l.args);
}

/// Every literal counts: one more makes a clause heavier by its weight, and
/// the empty clause weighs nothing.
pub proof fn literals_add_their_weight(ls: Seq<Lit>, l: Lit)
    ensures
        weights(Seq::empty(), 0) == 0,
        weights(ls.push(l), ls.len() + 1) == weights(ls, ls.len()) + l.weight(),
{
    let more = ls.push(l);
    crate::clause::lemma_weights_prefix(more, ls, ls.len());
    assert(weights(more, more.len()) == weights(more, ls.len()) + more[ls.len() as int].weight());
}

// ---------------------------------------------------------------------------
// Proof graphs.
// ---------------------------------------------------------------------------
/// The empty clause that is found is the first one, and one is found wherever
/// there is one.
pub proof fn the_first_empty_clause_is_found(dag: Seq<ClauseView>, from: nat)
    requires
        from <= dag.len(),
    ensures
        match first_empty(dag, from) {
            Some(id) => exists|i: int|
                from <= i < dag.len() && (#[trigger] dag[i]).literals.len() == 0 && dag[i].id == id
                    && forall|k: int| from <= k < i ==> (#[trigger] dag[k]).literals.len() > 0,
            None => forall|k: int| from <= k < dag.len() ==> (#[trigger] dag[k]).literals.len() > 0,
        },
    decreases dag.len() - from,
{
    if from < dag.len() {
        if dag[from as int].literals.len() == 0 {
            let i = from as int;
            assert(dag[i].literals.len() == 0 && dag[i].id == dag[i].id);
        } else {
            the_first_empty_clause_is_found(dag, from + 1);
            if let Some(id) = first_empty(dag, from + 1) {
                let i = choose|i: int|
                    from + 1 <= i < dag.len() && (#[trigger] dag[i]).literals.len() == 0
                        && dag[i].id == id && forall|k: int|
                        from + 1 <= k < i ==> (#[trigger] dag[k]).literals.len() > 0;
                assert(dag[i].literals.len() == 0 && dag[i].id == id);
                assert forall|k: int| from <= k < i implies (
                #[trigger] dag[k]).literals.len() > 0 by {}
            }
        }
    }
}

/// Whether the parents of a clause are those that its rule names.
pub open spec fn parents_fit(parents: Seq<ClauseId>, rule: RuleView) -> bool {
    match rule {
        RuleView::Input => parents.len() == 0,
        RuleView::Resolution { left, right, .. } => forall|x: ClauseId| #[trigger]
            parents.contains(x) <==> x == left || x == right,
        RuleView::Factoring { parent, .. } => forall|x: ClauseId| #[trigger]
            parents.contains(x) <==> x == parent,
        _ => true,
    }
}

/// Whether every parent of a clause is the id of some clause.
pub open spec fn parents_exist(dag: Seq<ClauseView>, parents: Seq<ClauseId>) -> bool {
    forall|j: int|
        0 <= j < parents.len() ==> exists|k: int|
            0 <= k < dag.len() && (#[trigger] dag[k]).id == #[trigger] parents[j]
}

proof fn lemma_unknown(dag: Seq<ClauseView>, parents: Seq<ClauseId>, j: nat)
    ensures
        first_unknown(dag, parents, j) is None <==> forall|i: int|
            j <= i < parents.len() ==> has_id(dag, #[trigger] parents[i]),
        first_unknown(dag, parents, j) matches Some(x) ==> !has_id(dag, x) && parents.contains(x),
    decreases parents.len() - j,
{
    if j < parents.len() && has_id(dag, parents[j as int]) {
        lemma_unknown(dag, parents, j + 1);
    }
}

proof fn lemma_same_set(parents: Seq<ClauseId>, implied: Seq<ClauseId>)
    ensures
        parents.to_set() == implied.to_set() <==> forall|x: ClauseId| #[trigger]
            parents.contains(x) <==> implied.contains(x),
{
    if parents.to_set() == implied.to_set() {
        assert forall|x: ClauseId| #[trigger] parents.contains(x) <==> implied.contains(x) by {
            assert(parents.to_set().contains(x) == implied.to_set().contains(x));
        }
    }
    if forall|x: ClauseId| #[trigger] parents.contains(x) <==> implied.contains(x) {
        assert forall|x: ClauseId| parents.to_set().contains(x) == implied.to_set().contains(x) by {
            assert(parents.contains(x) <==> implied.contains(x));
        }
        assert(parents.to_set() =~= implied.to_set());
    }
}

/// A clause has no fault exactly where its parents exist and are those that
/// its rule names.
pub proof fn faultless_clauses_fit_their_rule(dag: Seq<ClauseView>, c: ClauseView)
    ensures
        fault(dag, c) is None <==> parents_exist(dag, c.inference.parents) && parents_fit(
            c.inference.parents,
            c.inference.rule,
        ),
{
    let parents = c.inference.parents;
    let rule = c.inference.rule;
    lemma_unknown(dag, parents, 0);
    assert(parents_exist(dag, parents) == (forall|i: int|
        0 <= i < parents.len() ==> has_id(dag, #[trigger] parents[i]))) by {
        if parents_exist(dag, parents) {
            assert forall|i: int| 0 <= i < parents.len() implies has_id(
                dag,
                #[trigger] parents[i],
            ) by {
                let k = choose|k: int| 0 <= k < dag.len() && (#[trigger] dag[k]).id == parents[i];
                assert(dag[k].id == parents[i]);
            }
        }
    }
    if let Some(implied) = implied_parents(rule) {
        lemma_same_set(parents, implied);
        match rule {
            RuleView::Input => {
                if parents.len() > 0 {
                    assert(parents.contains(parents[0]));
                    assert(!implied.contains(parents[0]));
                } else {
                    assert forall|x: ClauseId| #[trigger] parents.contains(x)
                        <==> implied.contains(x) by {}
                }
            },
            RuleView::Resolution { left, right, .. } => {
                assert(implied[0] == left && implied[1] == right);
                assert forall|x: ClauseId| #[trigger] implied.contains(x) <==> x == left || x
                    == right by {
                    if x == left {
                        assert(implied[0] == x);
                    }
                    if x == right {
                        assert(implied[1] == x);
                    }
                }
            },
            RuleView::Factoring { parent, .. } => {
                assert(implied[0] == parent);
                assert forall|x: ClauseId| #[trigger] implied.contains(x) <==> x == parent by {}
            },
            _ => {},
        }
    }
}

/// A graph is valid exactly where the parents of every clause exist and are
/// those that its rule names, and no clause is its own ancestor.
pub proof fn valid_graphs_fit_their_rules(dag: Seq<ClauseView>)
    ensures
        valid(dag) <==> acyclic(dag_graph(dag)) && forall|i: int|
            0 <= i < dag.len() ==> parents_exist(dag, (#[trigger] dag[i]).inference.parents)
                && parents_fit(dag[i].inference.parents, dag[i].inference.rule),
{
    assert forall|i: int| 0 <= i < dag.len() implies (fault(dag, #[trigger] dag[i]) is None
        <==> parents_exist(dag, dag[i].inference.parents) && parents_fit(
        dag[i].inference.parents,
        dag[i].inference.rule,
    )) by {
        faultless_clauses_fit_their_rule(dag, dag[i]);
    }
}

proof fn lemma_first_unknown_is_first(dag: Seq<ClauseView>, parents: Seq<ClauseId>, j: nat)
    ensures
        first_unknown(dag, parents, j) matches Some(x) ==> exists|i: int|
            j <= i < parents.len() && #[trigger] parents[i] == x && !has_id(dag, x) && forall|k: int|
                j <= k < i ==> has_id(dag, #[trigger] parents[k]),
    decreases parents.len() - j,
{
    if j < parents.len() {
        if has_id(dag, parents[j as int]) {
            lemma_first_unknown_is_first(dag, parents, j + 1);
            if let Some(x) = first_unknown(dag, parents, j + 1) {
                let i = choose|i: int|
                    j + 1 <= i < parents.len() && #[trigger] parents[i] == x && !has_id(dag, x)
                        && forall|k: int| j + 1 <= k < i ==> has_id(dag, #[trigger] parents[k]);
                assert(parents[i] == x);
                assert forall|k: int| j <= k < i implies has_id(dag, #[trigger] parents[k]) by {}
            }
        } else {
            let i = j as int;
            assert(parents[i] == parents[i]);
        }
    }
}

/// A fault names its clause, and the first of its parents that no clause has
/// as its id, or its parents and those that its rule names.
pub proof fn faults_name_what_is_wrong(dag: Seq<ClauseView>, c: ClauseView)
    ensures
        match fault(dag, c) {
            None => true,
            Some(DagErrorView::UnknownParent { clause, missing }) => clause == c.id && exists|i: int|
                0 <= i < c.inference.parents.len() && #[trigger] c.inference.parents[i] == missing
                    && (forall|k: int| 0 <= k < dag.len() ==> (#[trigger] dag[k]).id != missing)
                    && forall|k: int|
                    0 <= k < i ==> has_id(dag, #[trigger] c.inference.parents[k]),
            Some(DagErrorView::ParentsMismatch { clause, declared, implied_by_rule }) => {
                &&& clause == c.id
                &&& declared == c.inference.parents
                &&& match c.inference.rule {
                    RuleView::Input => implied_by_rule.len() == 0,
                    RuleView::Resolution { left, right, .. } => implied_by_rule == seq![left, right],
                    RuleView::Factoring { parent, .. } => implied_by_rule == seq![parent],
                    _ => false,
                }
                &&& !parents_fit(c.inference.parents, c.inference.rule)
            },
            _ => false,
        },
{
    let parents = c.inference.parents;
    lemma_first_unknown_is_first(dag, parents, 0);
    faultless_clauses_fit_their_rule(dag, c);
    lemma_unknown(dag, parents, 0);
    if let Some(missing) = first_unknown(dag, parents, 0) {
        let i = choose|i: int|
            0 <= i < parents.len() && #[trigger] parents[i] == missing && !has_id(dag, missing)
                && forall|k: int| 0 <= k < i ==> has_id(dag, #[trigger] parents[k]);
        assert forall|k: int| 0 <= k < dag.len() implies (#[trigger] dag[k]).id != missing by {
            if dag[k].id == missing {
                assert(has_id(dag, missing));
            }
        }
        assert(c.inference.parents[i] == missing);
    } else {
        assert(parents_exist(dag, parents)) by {
            assert forall|j: int| 0 <= j < parents.len() implies exists|k: int|
                0 <= k < dag.len() && (#[trigger] dag[k]).id == #[trigger] parents[j] by {
                assert(has_id(dag, parents[j]));
            }
        }
    }
}

/// In a valid graph no walk from clauses to their parents comes back.
pub proof fn valid_graphs_have_no_cycle(dag: Seq<ClauseView>, path: Seq<ClauseId>)
    requires
        distinct(dag),
        dag.len() <= usize::MAX,
        valid(dag),
    ensures
        !cycle_of_ids(dag, path),
{
    if cycle_of_ids(dag, path) {
        let g = dag_graph(dag);
        let walk = Seq::new(path.len(), |i: int| pos(dag, path[i]));
        assert forall|i: int| 0 <= i < walk.len() implies #[trigger] walk[i] < g.len() by {
            assert(has_id(dag, path[i]));
            lemma_has(dag, path[i]);
        }
        assert forall|i: int| 0 <= i < walk.len() - 1 implies g[#[trigger] walk[i] as int].contains(
            walk[i + 1],
        ) by {
            let x = pos(dag, path[i]) as int;
            let parents = dag[x].inference.parents;
            assert(has_id(dag, path[i]));
            lemma_has(dag, path[i]);
            assert(fault(dag, dag[x]) is None);
            lemma_unknown(dag, parents, 0);
            lemma_positions(dag, parents);
            assert(parents.contains(path[i + 1]));
            let j = choose|j: int| 0 <= j < parents.len() && parents[j] == path[i + 1];
            assert(g[x] == positions(dag, parents));
            assert(g[x][j] == pos(dag, path[i + 1]));
        }
        let i = choose|i: int| 0 <= i < path.len() - 1 && #[trigger] path[i] == path.last();
        assert(walk[i] == walk.last());
        assert(cycle_path(g, walk));
        cycle_is_not_acyclic(g, walk);
    }
}

} // verus!
