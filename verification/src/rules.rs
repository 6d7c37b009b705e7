//! What the inference rules are for: their conclusions stand for all
//! conclusions that could be drawn from instances of the clauses, and for no
//! others.
use crate::bindings::{
    agree_from, closure, lemma_closure_solves, lemma_full_inst, lemma_solution_factors, solves,
    Bindings,
};
use crate::clause::{inst_lits, lits, lits_have_var, views, Lit, RuleView};
use crate::inference::{
    both_renamed, clash, factor_at, factored_all, factoring_entry, found, glue, is_renaming,
    lemma_factoring_merges, lemma_lit_compose, lemma_lit_inst_agree, lemma_resolution_resolves,
    mergeable, origin, pair_of, ren, renamed, renamed_apart, renaming, resolution_entry, resolvable,
    resolved_all, resolvent, unified, vars_of, within, after_renaming, InferenceResult, Stock,
};
use crate::forest::Forest;
use crate::saturation::Saturation;
use crate::term::{TermArena, VarId};
use crate::tree::{inst_all, Assignment, Tree};
use crate::unify::{tree_map, unify_lists_is_most_general};
use vstd::prelude::*;

verus! {

/// Whether the instances of two literals are complementary: the same predicate
/// and arguments, and opposite signs.
pub open spec fn complementary(l1: Lit, tau1: Assignment, l2: Lit, tau2: Assignment) -> bool {
    &&& l1.positive != l2.positive
    &&& l1.predicate == l2.predicate
    &&& inst_all(l1.args, tau1) == inst_all(l2.args, tau2)
}

/// What is left of the instances of two clauses when the literals `i` and `j`
/// are taken away.
pub open spec fn left_over(
    ls1: Seq<Lit>,
    tau1: Assignment,
    i: int,
    ls2: Seq<Lit>,
    tau2: Assignment,
    j: int,
) -> Seq<Lit> {
    inst_lits(ls1, tau1).remove(i) + inst_lits(ls2, tau2).remove(j)
}

proof fn lemma_glue(
    ls: Seq<Lit>,
    r: Map<VarId, VarId>,
    tau: Assignment,
    all: Assignment,
)
    requires
        is_renaming(r, vars_of(ls)),
        forall|v: VarId| #[trigger] r.contains_key(v) ==> all(r[v]) == tau(origin(r, r[v])),
    ensures
        inst_lits(inst_lits(ls, ren(r)), all) == inst_lits(ls, tau),
{
    let both = |v: VarId| ren(r)(v).inst(all);
    assert forall|i: int| 0 <= i < ls.len() implies (#[trigger] ls[i]).inst(ren(r)).inst(all)
        == ls[i].inst(tau) by {
        let l = ls[i];
        assert forall|v: VarId| l.has_var(v) implies #[trigger] both(v) == tau(v) by {
            assert(lits_have_var(ls, v));
            assert(vars_of(ls).contains(v));
            assert(r.contains_key(v));
            let w = origin(r, r[v]);
            assert(r.contains_key(w) && r[w] == r[v]);
        }
        lemma_lit_compose(l, ren(r), all);
        lemma_lit_inst_agree(l, both, tau);
    }
    assert(inst_lits(inst_lits(ls, ren(r)), all) =~= inst_lits(ls, tau));
}

/// One assignment for two clauses that were renamed apart.
proof fn lemma_both(
    ls1: Seq<Lit>,
    ls2: Seq<Lit>,
    d1: Seq<Lit>,
    d2: Seq<Lit>,
    lo: int,
    hi: int,
    tau1: Assignment,
    tau2: Assignment,
) -> (all: Assignment)
    requires
        both_renamed(ls1, ls2, d1, d2, lo, hi),
    ensures
        inst_lits(d1, all) == inst_lits(ls1, tau1),
        inst_lits(d2, all) == inst_lits(ls2, tau2),
        d1.len() == ls1.len(),
        d2.len() == ls2.len(),
{
    let mid = choose|mid: int| #[trigger]
        renamed_apart(ls1, d1, lo, mid) && renamed_apart(ls2, d2, mid, hi);
    let r1 = choose|r: Map<VarId, VarId>| #[trigger]
        is_renaming(r, vars_of(ls1)) && within(r, lo, mid) && d1 == inst_lits(ls1, ren(r));
    let r2 = choose|r: Map<VarId, VarId>| #[trigger]
        is_renaming(r, vars_of(ls2)) && within(r, mid, hi) && d2 == inst_lits(ls2, ren(r));
    let all = glue(r1, tau1, r2, tau2, mid);
    lemma_glue(ls1, r1, tau1, all);
    lemma_glue(ls2, r2, tau2, all);
    all
}

/// An instance of what a most general unifier gives.
proof fn lemma_mgu_instance(b: Bindings, ls: Seq<Lit>, tau: Assignment)
    requires
        crate::bindings::acyclic(b),
        solves(b, tau),
    ensures
        inst_lits(inst_lits(ls, closure(b)), tau) == inst_lits(ls, tau),
{
    assert forall|i: int| 0 <= i < ls.len() implies (#[trigger] ls[i]).inst(closure(b)).inst(tau)
        == ls[i].inst(tau) by {
        let args = ls[i].args;
        assert forall|k: int| 0 <= k < args.len() implies (#[trigger] args[k]).inst(
            closure(b),
        ).inst(tau) == args[k].inst(tau) by {
            lemma_full_inst(b, args[k]);
            lemma_solution_factors(b, args[k], tau);
        }
        assert(inst_all(inst_all(args, closure(b)), tau) =~= inst_all(args, tau));
    }
    assert(inst_lits(inst_lits(ls, closure(b)), tau) =~= inst_lits(ls, tau));
}

proof fn lemma_agree(l1: Lit, l2: Lit, tau: Assignment)
    requires
        inst_all(l1.args, tau) == inst_all(l2.args, tau),
    ensures
        l1.args.len() == l2.args.len(),
        agree_from(l1.args, l2.args, 0, tau),
        solves(unified(l1, l2), tau),
        crate::bindings::acyclic(unified(l1, l2)),
{
    assert(inst_all(l1.args, tau).len() == l1.args.len());
    assert(inst_all(l2.args, tau).len() == l2.args.len());
    assert forall|k: int| 0 <= k < l1.args.len() implies (#[trigger] l1.args[k]).inst(tau)
        == l2.args[k].inst(tau) by {
        assert(inst_all(l1.args, tau)[k] == l1.args[k].inst(tau));
        assert(inst_all(l2.args, tau)[k] == l2.args[k].inst(tau));
    }
    crate::unify::no_bindings_are_acyclic();
    unify_lists_is_most_general(Map::empty(), l1.args, l2.args);
    assert(solves(Map::<VarId, Tree>::empty(), tau));
}

/// The resolvent of renamed clauses has the conclusion from any complementary
/// instances as an instance.
#[verifier::rlimit(30)]
proof fn lemma_resolvent_lifts(
    ls1: Seq<Lit>,
    ls2: Seq<Lit>,
    d1: Seq<Lit>,
    d2: Seq<Lit>,
    lo: int,
    hi: int,
    i: int,
    j: int,
    tau1: Assignment,
    tau2: Assignment,
) -> (sigma: Assignment)
    requires
        both_renamed(ls1, ls2, d1, d2, lo, hi),
        0 <= i < ls1.len(),
        0 <= j < ls2.len(),
        complementary(ls1[i], tau1, ls2[j], tau2),
    ensures
        d1.len() == ls1.len(),
        d2.len() == ls2.len(),
        resolvable(d1[i], d2[j]),
        inst_lits(resolvent(d1, d2, i, j), sigma) == left_over(ls1, tau1, i, ls2, tau2, j),
{
    let sigma = lemma_both(ls1, ls2, d1, d2, lo, hi, tau1, tau2);
    let a = inst_lits(ls1, tau1);
    let b = inst_lits(ls2, tau2);
    assert(inst_lits(d1, sigma)[i] == a[i]);
    assert(inst_lits(d2, sigma)[j] == b[j]);
    assert(d1[i].inst(sigma) == ls1[i].inst(tau1));
    assert(d2[j].inst(sigma) == ls2[j].inst(tau2));
    lemma_agree(d1[i], d2[j], sigma);
    let both = d1.remove(i) + d2.remove(j);
    lemma_mgu_instance(unified(d1[i], d2[j]), both, sigma);
    lemma_removed(d1, d2, i, j, sigma);
    sigma
}

/// Resolution misses nothing: wherever instances of two clauses have
/// complementary literals, whatever their predicate and the number of its
/// arguments, one of the results has what is left of the two instances as an
/// instance, and names the two literals.
pub proof fn every_resolvent_is_found(
    id1: u32,
    id2: u32,
    ls1: Seq<Lit>,
    ls2: Seq<Lit>,
    before: Stock,
    after: Stock,
    arena: &TermArena,
    results: Seq<InferenceResult>,
    i: int,
    j: int,
    tau1: Assignment,
    tau2: Assignment,
) -> (r: (int, Assignment))
    requires
        resolved_all(id1, id2, ls1, ls2, before, after, arena, results, true),
        0 <= i < ls1.len(),
        0 <= j < ls2.len(),
        complementary(ls1[i], tau1, ls2[j], tau2),
    ensures
        0 <= r.0 < results.len(),
        inst_lits(lits(views(results[r.0].0@), arena), r.1) == left_over(
            ls1,
            tau1,
            i,
            ls2,
            tau2,
            j,
        ),
        results[r.0].1@.parents == seq![id1, id2],
        results[r.0].1@.rule matches RuleView::Resolution { left, left_lit, right, right_lit, .. }
            && left == id1 && left_lit == i && right == id2 && right_lit == j,
{
    let d1 = renamed(ls1, before.next);
    let mid = after_renaming(before, ls1).next;
    let d2 = renamed(ls2, mid);
    assert(renamed_apart(ls1, d1, before.next, mid) && renamed_apart(ls2, d2, mid, after.next));
    assert(both_renamed(ls1, ls2, d1, d2, before.next, after.next));
    let sigma = lemma_resolvent_lifts(
        ls1,
        ls2,
        d1,
        d2,
        before.next,
        after.next,
        i,
        j,
        tau1,
        tau2,
    );
    assert(resolvable(d1[i], d2[j]));
    assert(found(results, (i, j)));
    let k = choose|k: int|
        0 <= k < results.len() && pair_of((#[trigger] results[k]).1@.rule) == (i, j);
    assert(resolution_entry(id1, id2, d1, d2, arena, views(results[k].0@), results[k].1@));
    lemma_resolution_resolves(id1, id2, d1, d2, arena, views(results[k].0@), results[k].1@);
    (k, sigma)
}

spec fn after_both(a: Assignment, b: Assignment) -> Assignment {
    |v: VarId| a(v).inst(b)
}

proof fn lemma_lits_compose(ls: Seq<Lit>, a: Assignment, b: Assignment)
    ensures
        inst_lits(inst_lits(ls, a), b) == inst_lits(ls, after_both(a, b)),
{
    assert forall|i: int| 0 <= i < ls.len() implies (#[trigger] ls[i]).inst(a).inst(b)
        == ls[i].inst(after_both(a, b)) by {
        lemma_lit_compose(ls[i], a, b);
    }
    assert(inst_lits(inst_lits(ls, a), b) =~= inst_lits(ls, after_both(a, b)));
}

/// Resolution invents nothing: every result is what is left of instances of
/// the two clauses without the two literals that it names, which are
/// complementary there. It lacks no other literal and has no more.
#[verifier::rlimit(30)]
pub proof fn every_result_is_a_resolvent(
    id1: u32,
    id2: u32,
    ls1: Seq<Lit>,
    ls2: Seq<Lit>,
    before: Stock,
    after: Stock,
    arena: &TermArena,
    results: Seq<InferenceResult>,
    all: bool,
    k: int,
) -> (r: (Assignment, Assignment))
    requires
        resolved_all(id1, id2, ls1, ls2, before, after, arena, results, all),
        0 <= k < results.len(),
    ensures
        results[k].1@.parents == seq![id1, id2],
        results[k].1@.rule matches RuleView::Resolution { left, left_lit, right, right_lit, .. }
            && left == id1 && right == id2 && left_lit < ls1.len() && right_lit < ls2.len()
            && complementary(ls1[left_lit as int], r.0, ls2[right_lit as int], r.1) && lits(
            views(results[k].0@),
            arena,
        ) == left_over(ls1, r.0, left_lit as int, ls2, r.1, right_lit as int),
{
    let mid = after_renaming(before, ls1).next;
    let d1 = renamed(ls1, before.next);
    let d2 = renamed(ls2, mid);
    let concl = views(results[k].0@);
    assert(resolution_entry(id1, id2, d1, d2, arena, concl, results[k].1@));
    if let RuleView::Resolution { left_lit, right_lit, unifier, .. } = results[k].1@.rule {
        let i = left_lit as int;
        let j = right_lit as int;
        let b = tree_map(unifier, arena);
        let c = closure(b);
        let rho1 = ren(renaming(ls1, before.next));
        let rho2 = ren(renaming(ls2, mid));
        lemma_lits_compose(ls1, rho1, c);
        lemma_lits_compose(ls2, rho2, c);
        let tau1 = after_both(rho1, c);
        let tau2 = after_both(rho2, c);
        lemma_closure_solves(b);
        assert(solves(b, c));
        assert(inst_all(d1[i].args, c) =~= inst_all(d2[j].args, c));
        let x = inst_lits(ls1, tau1);
        let y = inst_lits(ls2, tau2);
        assert(inst_lits(d1, c)[i] == x[i]);
        assert(inst_lits(d2, c)[j] == y[j]);
        lemma_removed(d1, d2, i, j, c);
        (tau1, tau2)
    } else {
        (|v: VarId| Tree::Var(v), |v: VarId| Tree::Var(v))
    }
}

/// Whether two literals have the same sign and the same instance.
pub open spec fn alike(l1: Lit, l2: Lit, tau: Assignment) -> bool {
    l1.inst(tau) == l2.inst(tau)
}

proof fn lemma_factor_lifts(d: Seq<Lit>, i: int, j: int, tau: Assignment)
    requires
        0 <= i < j < d.len(),
        alike(d[i], d[j], tau),
    ensures
        mergeable(d[i], d[j]),
        inst_lits(factor_at(d, i, j), tau) == inst_lits(d, tau).remove(j),
{
    lemma_agree(d[i], d[j], tau);
    lemma_mgu_instance(unified(d[i], d[j]), d.remove(j), tau);
    assert(inst_lits(d.remove(j), tau) =~= inst_lits(d, tau).remove(j));
}

/// Factoring misses nothing: wherever two literals of an instance of the clause
/// are equal, one of the results has that instance without the later one as an
/// instance, and names the two literals.
pub proof fn every_factor_is_found(
    id: u32,
    d: Seq<Lit>,
    before: Forest,
    after: Forest,
    arena: &TermArena,
    results: Seq<InferenceResult>,
    i: int,
    j: int,
    tau: Assignment,
) -> (k: int)
    requires
        factored_all(id, d, before, after, arena, results, true),
        0 <= i < j < d.len(),
        alike(d[i], d[j], tau),
    ensures
        0 <= k < results.len(),
        inst_lits(lits(views(results[k].0@), arena), tau) == inst_lits(d, tau).remove(j),
        results[k].1@.parents == seq![id],
        results[k].1@.rule matches RuleView::Factoring { parent, lit_a, lit_b, .. } && parent == id
            && lit_a == i && lit_b == j,
{
    lemma_factor_lifts(d, i, j, tau);
    assert(found(results, (i, j)));
    let k = choose|k: int|
        0 <= k < results.len() && pair_of((#[trigger] results[k]).1@.rule) == (i, j);
    assert(factoring_entry(id, d, arena, views(results[k].0@), results[k].1@));
    lemma_factoring_merges(id, d, arena, views(results[k].0@), results[k].1@);
    k
}

/// Factoring invents nothing: every result is an instance of the clause in
/// which the two literals that it names are equal, without the later one.
pub proof fn every_result_is_a_factor(
    id: u32,
    d: Seq<Lit>,
    before: Forest,
    after: Forest,
    arena: &TermArena,
    results: Seq<InferenceResult>,
    all: bool,
    k: int,
) -> (tau: Assignment)
    requires
        factored_all(id, d, before, after, arena, results, all),
        0 <= k < results.len(),
    ensures
        results[k].1@.parents == seq![id],
        results[k].1@.rule matches RuleView::Factoring { parent, lit_a, lit_b, .. } && parent == id
            && lit_a < lit_b < d.len() && alike(d[lit_a as int], d[lit_b as int], tau) && lits(
            views(results[k].0@),
            arena,
        ) == inst_lits(d, tau).remove(lit_b as int),
{
    assert(factoring_entry(id, d, arena, views(results[k].0@), results[k].1@));
    if let RuleView::Factoring { lit_a, lit_b, unifier, .. } = results[k].1@.rule {
        let b = tree_map(unifier, arena);
        let tau = closure(b);
        let i = lit_a as int;
        let j = lit_b as int;
        lemma_closure_solves(b);
        assert(solves(b, tau));
        assert(inst_all(d[i].args, tau) =~= inst_all(d[j].args, tau));
        assert(inst_lits(d.remove(j), tau) =~= inst_lits(d, tau).remove(j));
        tau
    } else {
        |v: VarId| Tree::Var(v)
    }
}

/// A search in which nothing waits holds the conclusion from any complementary
/// instances of two of its clauses as an instance of a clause.
pub proof fn saturated_searches_hold_every_resolvent(
    sat: &Saturation,
    q: int,
    p: int,
    i: int,
    j: int,
    tau1: Assignment,
    tau2: Assignment,
) -> (r: (int, Assignment))
    requires
        sat.wf(),
        sat.on_track(),
        sat.spec_passive().len() == 0,
        0 <= p < q < sat.clauses().len(),
        0 <= i < sat.contents()[q].len(),
        0 <= j < sat.contents()[p].len(),
        complementary(sat.contents()[q][i], tau1, sat.contents()[p][j], tau2),
    ensures
        0 <= r.0 < sat.clauses().len(),
        inst_lits(sat.contents()[r.0], r.1) == left_over(
            sat.contents()[q],
            tau1,
            i,
            sat.contents()[p],
            tau2,
            j,
        ),
{
    sat.saturation_is_closed();
    let cs = sat.contents();
    assert(clash(cs[q][i], cs[p][j]));
    let k = choose|k: int|
        0 <= k < sat.clauses().len() && #[trigger] sat.is_resolvent(k, q, p, i, j);
    let (d1, d2, lo, hi) = choose|d1: Seq<Lit>, d2: Seq<Lit>, lo: int, hi: int| #[trigger]
        both_renamed(cs[q], cs[p], d1, d2, lo, hi) && cs[k] == resolvent(d1, d2, i, j);
    let sigma = lemma_resolvent_lifts(cs[q], cs[p], d1, d2, lo, hi, i, j, tau1, tau2);
    (k, sigma)
}

/// A search in which nothing waits holds every instance of a clause, without
/// the later of two equal literals, as an instance of a clause.
pub proof fn saturated_searches_hold_every_factor(
    sat: &Saturation,
    q: int,
    i: int,
    j: int,
    tau: Assignment,
) -> (k: int)
    requires
        sat.wf(),
        sat.on_track(),
        sat.spec_passive().len() == 0,
        0 <= q < sat.clauses().len(),
        0 <= i < j < sat.contents()[q].len(),
        alike(sat.contents()[q][i], sat.contents()[q][j], tau),
    ensures
        0 <= k < sat.contents().len(),
        inst_lits(sat.contents()[k], tau) == inst_lits(sat.contents()[q], tau).remove(j),
{
    sat.saturation_is_closed();
    let cs = sat.contents();
    lemma_factor_lifts(cs[q], i, j, tau);
    assert(cs.contains(factor_at(cs[q], i, j)));
    choose|k: int| 0 <= k < cs.len() && cs[k] == factor_at(cs[q], i, j)
}

/// Every resolvent that a search stores names two earlier clauses and a literal
/// in each of them. The two have the same predicate and opposite signs, and the
/// clause is what is left of instances in which they are complementary.
pub proof fn stored_resolvents_fit_their_parents(sat: &Saturation, k: int) -> (r: (
    Assignment,
    Assignment,
))
    requires
        sat.wf(),
        0 <= k < sat.clauses().len(),
        sat.clauses()[k].inference.rule is Resolution,
    ensures
        sat.clauses()[k].inference.rule matches RuleView::Resolution {
            left,
            left_lit,
            right,
            right_lit,
            ..
        } && left < k && right < k && left_lit < sat.contents()[left as int].len() && right_lit
            < sat.contents()[right as int].len() && complementary(
            sat.contents()[left as int][left_lit as int],
            r.0,
            sat.contents()[right as int][right_lit as int],
            r.1,
        ) && sat.contents()[k] == left_over(
            sat.contents()[left as int],
            r.0,
            left_lit as int,
            sat.contents()[right as int],
            r.1,
            right_lit as int,
        ),
{
    let store = sat.clauses();
    let arena = sat.spec_arena();
    let before = store.take(k);
    let concl = store[k].literals;
    let info = store[k].inference;
    assert(crate::saturation::justified(before, &arena, concl, info));
    if let RuleView::Resolution { left, left_lit, right, right_lit, unifier } = info.rule {
        let ls1 = lits(before[left as int].literals, &arena);
        let ls2 = lits(before[right as int].literals, &arena);
        assert(sat.contents()[left as int] == ls1);
        assert(sat.contents()[right as int] == ls2);
        let (d1, d2, lo, hi) = choose|d1: Seq<Lit>, d2: Seq<Lit>, lo: int, hi: int| #[trigger]
            both_renamed(ls1, ls2, d1, d2, lo, hi) && resolution_entry(
                left,
                right,
                d1,
                d2,
                &arena,
                concl,
                info,
            );
        let mid = choose|mid: int| #[trigger]
            renamed_apart(ls1, d1, lo, mid) && renamed_apart(ls2, d2, mid, hi);
        let r1 = choose|r: Map<VarId, VarId>| #[trigger]
            is_renaming(r, vars_of(ls1)) && within(r, lo, mid) && d1 == inst_lits(ls1, ren(r));
        let r2 = choose|r: Map<VarId, VarId>| #[trigger]
            is_renaming(r, vars_of(ls2)) && within(r, mid, hi) && d2 == inst_lits(ls2, ren(r));
        let i = left_lit as int;
        let j = right_lit as int;
        let b = tree_map(unifier, &arena);
        let c = closure(b);
        lemma_lits_compose(ls1, ren(r1), c);
        lemma_lits_compose(ls2, ren(r2), c);
        let tau1 = after_both(ren(r1), c);
        let tau2 = after_both(ren(r2), c);
        lemma_closure_solves(b);
        assert(solves(b, c));
        assert(inst_all(d1[i].args, c) =~= inst_all(d2[j].args, c));
        let x = inst_lits(ls1, tau1);
        let y = inst_lits(ls2, tau2);
        assert(inst_lits(d1, c)[i] == x[i]);
        assert(inst_lits(d2, c)[j] == y[j]);
        lemma_removed(d1, d2, i, j, c);
        (tau1, tau2)
    } else {
        (|v: VarId| Tree::Var(v), |v: VarId| Tree::Var(v))
    }
}

proof fn lemma_removed(d1: Seq<Lit>, d2: Seq<Lit>, i: int, j: int, c: Assignment)
    requires
        0 <= i < d1.len(),
        0 <= j < d2.len(),
    ensures
        inst_lits(d1.remove(i) + d2.remove(j), c) == inst_lits(d1, c).remove(i) + inst_lits(
            d2,
            c,
        ).remove(j),
{
    let both = d1.remove(i) + d2.remove(j);
    let x = inst_lits(d1, c);
    let y = inst_lits(d2, c);
    assert(inst_lits(both, c) =~= x.remove(i) + y.remove(j)) by {
        assert forall|m: int| 0 <= m < both.len() implies #[trigger] both[m].inst(c) == (x.remove(i)
            + y.remove(j))[m] by {
            if m < i {
                assert(x[m] == d1[m].inst(c));
            } else if m < d1.len() - 1 {
                assert(x[m + 1] == d1[m + 1].inst(c));
            }
        }
    }
}

} // verus!
