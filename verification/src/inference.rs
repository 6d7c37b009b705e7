//! Resolution and factoring.
use crate::bindings::{
    acyclic, agree_from, all_vars, closure, lemma_full_acyclic, lemma_full_inst, ranked,
    solves, unify_lists_outcome, Bindings,
};
use crate::clause::{
    inst_lits, lemma_lit_extends, lemma_lits_extends, lits, lits_have_var, lits_valid, views,
    weights, Clause, InferenceInfo, InferenceRule, InferenceView, Lit, LitIds, Literal,
    RuleView,
};
use crate::forest::{
    arities, lemma_numbered_prefix, lemma_plant_list, lemma_plant_list_prefix, lemma_prefix_trans,
    numbered, plant, plant_list, with_tree, Forest,
};
use crate::term::{TermArena, TermData, TermId, VarId};
use crate::tree::{
    any_has_var, inst_all, lemma_inst_agree, lemma_inst_app, lemma_inst_compose,
    lemma_inst_has_var, lemma_inst_identity, sizes, Assignment, Tree,
};
use crate::unify::{
    bound_valid, lemma_tree_map_extends, lemma_tree_map_insert, no_bindings_are_acyclic, tree_map,
    unify_lists_is_most_general, unify_literals, Substitution,
};
use std::collections::HashSet;
use vstd::prelude::*;

verus! {

broadcast use vstd::std_specs::hash::group_hash_axioms;

/// Hands out variables, each of them once.
#[derive(Debug)]
pub struct VarGen {
    next: VarId,
}

impl VarGen {
    /// The variable that is handed out next.
    pub closed spec fn next(&self) -> VarId {
        self.next
    }

    /// Whether no variable is left.
    pub open spec fn exhausted(&self) -> bool {
        self.next() == u32::MAX
    }

    /// A generator that starts at variable 0.
    pub fn new() -> (r: Self)
        ensures
            r.next() == 0,
    {
        VarGen { next: 0 }
    }

    /// A variable that this generator has not handed out before.
    pub fn fresh(&mut self) -> (r: VarId)
        requires
            !old(self).exhausted(),
        ensures
            r == old(self).next(),
            final(self).next() == old(self).next() + 1,
    {
        let v: VarId = self.next;
        self.next = v + 1;
        v
    }
}

impl Default for VarGen {
    fn default() -> (r: Self)
        ensures
            r.next() == 0,
    {
        VarGen::new()
    }
}

/// Where a generator at `next` stands after handing out variables until `k` of
/// them are not in `avoid`; past the end of the variables where they run out.
pub open spec fn skip(avoid: Set<VarId>, next: int, k: nat) -> int
    decreases u32::MAX - next,
{
    if k == 0 {
        next
    } else if next >= u32::MAX {
        u32::MAX + 1
    } else if avoid.contains(next as VarId) {
        skip(avoid, next + 1, k)
    } else {
        skip(avoid, next + 1, (k - 1) as nat)
    }
}

/// The variable that a generator at `next` hands out after `k` others that are
/// not in `avoid`; `u32::MAX` where they run out.
pub open spec fn nth_free(avoid: Set<VarId>, next: int, k: nat) -> int
    decreases u32::MAX - next,
{
    if next >= u32::MAX {
        u32::MAX as int
    } else if avoid.contains(next as VarId) {
        nth_free(avoid, next + 1, k)
    } else if k == 0 {
        next
    } else {
        nth_free(avoid, next + 1, (k - 1) as nat)
    }
}

/// The variables seen so far, and those of the tree in order of their first
/// occurrence.
pub open spec fn tree_vars(t: Tree, seen: Seq<VarId>) -> Seq<VarId>
    decreases t, 0nat,
{
    match t {
        Tree::Var(v) => if seen.contains(v) {
            seen
        } else {
            seen.push(v)
        },
        Tree::App(_, args) => trees_vars(args, args.len(), seen),
    }
}

/// The same for the first `k` trees.
pub open spec fn trees_vars(ts: Seq<Tree>, k: nat, seen: Seq<VarId>) -> Seq<VarId>
    decreases ts, k,
{
    if 0 < k <= ts.len() {
        tree_vars(ts[k - 1], trees_vars(ts, (k - 1) as nat, seen))
    } else {
        seen
    }
}

/// The variables of the first `k` literals in order of their first occurrence.
pub open spec fn var_order(ls: Seq<Lit>, k: nat) -> Seq<VarId>
    decreases k,
{
    if 0 < k <= ls.len() {
        trees_vars(ls[k - 1].args, ls[k - 1].args.len(), var_order(ls, (k - 1) as nat))
    } else {
        Seq::empty()
    }
}

/// The new names of the variables, in their order, from a generator at `next`.
pub open spec fn fresh_names(ls: Seq<Lit>, next: int) -> Seq<VarId> {
    Seq::new(var_order(ls, ls.len()).len(), |k: int| nth_free(vars_of(ls), next, k as nat) as VarId)
}

/// The new name of every variable.
pub open spec fn renaming(ls: Seq<Lit>, next: int) -> Map<VarId, VarId> {
    Map::new(
        |v: VarId| vars_of(ls).contains(v),
        |v: VarId| fresh_names(ls, next)[var_order(ls, ls.len()).index_of(v)],
    )
}

/// The literals with their variables renamed by a generator at `next`.
pub open spec fn renamed(ls: Seq<Lit>, next: int) -> Seq<Lit> {
    inst_lits(ls, ren(renaming(ls, next)))
}

/// What a search has used: its terms, and the variables below `next`.
#[verifier::ext_equal]
pub struct Stock {
    pub forest: Forest,
    pub next: int,
}

impl Stock {
    /// Whether 32-bit numbers suffice.
    pub open spec fn in_range(self) -> bool {
        numbered(self.forest) && self.next <= u32::MAX
    }
}

/// The stock of an arena and a generator.
pub open spec fn stock(arena: &TermArena, var_gen: &VarGen) -> Stock {
    Stock { forest: arena.forest(), next: var_gen.next() as int }
}

/// The forest after building the arguments of the first `k` literals.
pub open spec fn plant_lits(f: Forest, ls: Seq<Lit>, k: nat) -> Forest
    decreases k,
{
    if 0 < k <= ls.len() {
        plant_list(plant_lits(f, ls, (k - 1) as nat), ls[k - 1].args, ls[k - 1].args.len())
    } else {
        f
    }
}

/// The variables `names` as trees.
pub open spec fn var_trees(names: Seq<VarId>) -> Seq<Tree> {
    Seq::new(names.len(), |k: int| Tree::Var(names[k]))
}

/// The stock after renaming the variables of `ls`.
pub open spec fn after_renaming(s: Stock, ls: Seq<Lit>) -> Stock {
    let names = var_trees(fresh_names(ls, s.next));
    Stock {
        forest: plant_lits(
            plant_list(s.forest, names, names.len()),
            renamed(ls, s.next),
            ls.len(),
        ),
        next: skip(vars_of(ls), s.next, vars_of(ls).len()),
    }
}

pub(crate) proof fn lemma_plant_lits_prefix(f: Forest, ls: Seq<Lit>, j: nat, k: nat)
    requires
        j <= k <= ls.len(),
    ensures
        plant_lits(f, ls, j).is_prefix_of(plant_lits(f, ls, k)),
    decreases k,
{
    let a = plant_lits(f, ls, j);
    if j == k {
        assert(a =~= a.subrange(0, a.len() as int));
    } else {
        let b = plant_lits(f, ls, (k - 1) as nat);
        lemma_plant_lits_prefix(f, ls, j, (k - 1) as nat);
        lemma_plant_list(b, ls[k - 1].args, ls[k - 1].args.len());
        lemma_prefix_trans(a, b, plant_lits(f, ls, k));
    }
}

proof fn lemma_plant_lits_same(f: Forest, ls: Seq<Lit>, ms: Seq<Lit>, k: nat)
    requires
        k <= ls.len(),
        k <= ms.len(),
        forall|i: int| 0 <= i < k ==> ls[i] == ms[i],
    ensures
        plant_lits(f, ls, k) == plant_lits(f, ms, k),
    decreases k,
{
    if k > 0 {
        lemma_plant_lits_same(f, ls, ms, (k - 1) as nat);
    }
}

proof fn lemma_plant_lits_concat(f: Forest, a: Seq<Lit>, b: Seq<Lit>, k: nat)
    requires
        k <= b.len(),
    ensures
        plant_lits(f, a + b, a.len() + k) == plant_lits(plant_lits(f, a, a.len()), b, k),
    decreases k,
{
    if k == 0 {
        lemma_plant_lits_same(f, a, a + b, a.len());
    } else {
        lemma_plant_lits_concat(f, a, b, (k - 1) as nat);
        assert((a + b)[a.len() + k - 1] == b[k - 1]);
    }
}

/// The variables of a list of literals.
pub open spec fn vars_of(ls: Seq<Lit>) -> Set<VarId> {
    Set::new(|v: VarId| lits_have_var(ls, v))
}

/// A renaming of exactly the variables `from` to variables outside of `from`,
/// different ones to different ones.
pub open spec fn is_renaming(r: Map<VarId, VarId>, from: Set<VarId>) -> bool {
    &&& r.dom() == from
    &&& forall|v: VarId, w: VarId|
        from.contains(v) && from.contains(w) && #[trigger] r[v] == #[trigger] r[w] ==> v == w
    &&& forall|v: VarId| #[trigger] from.contains(v) ==> !from.contains(r[v])
}

/// Whether a renaming uses variables from `lo` up to `hi` only.
pub open spec fn within(r: Map<VarId, VarId>, lo: int, hi: int) -> bool {
    forall|v: VarId| #[trigger] r.contains_key(v) ==> lo <= r[v] < hi
}

/// A renaming as an assignment.
pub open spec fn ren(r: Map<VarId, VarId>) -> Assignment {
    |v: VarId|
        if r.contains_key(v) {
            Tree::Var(r[v])
        } else {
            Tree::Var(v)
        }
}

spec fn collected(seen: Set<VarId>, order: Seq<VarId>) -> bool {
    &&& order.no_duplicates()
    &&& order.to_set() == seen
}

/// Adds the variables of a term that were not seen before, in order of their
/// first occurrence.
fn collect_vars(
    term: TermId,
    arena: &TermArena,
    seen: &mut HashSet<VarId>,
    order: &mut Vec<VarId>,
)
    requires
        arena.wf(),
        arena.valid(term),
        collected(old(seen)@, old(order)@),
    ensures
        collected(final(seen)@, final(order)@),
        forall|v: VarId| #[trigger]
            final(seen)@.contains(v) <==> old(seen)@.contains(v) || arena.tree(term).has_var(v),
        final(order)@ == tree_vars(arena.tree(term), old(order)@),
    decreases term,
{
    proof {
        arena.lemma_tree_app(term);
    }
    match arena.get(term) {
        TermData::Var(v) => {
            assert(order@.to_set().contains(v) == order@.contains(v));
            if !seen.contains(&v) {
                let ghost before = order@;
                seen.insert(v);
                order.push(v);
                proof {
                    assert(!before.to_set().contains(v));
                    assert(order@.to_set() =~= before.to_set().insert(v)) by {
                        assert(order@[order@.len() - 1] == v);
                        assert forall|w: VarId| before.contains(w) implies order@.contains(w) by {
                            let i = choose|i: int| 0 <= i < before.len() && before[i] == w;
                            assert(order@[i] == w);
                        }
                    }
                    assert(order@.no_duplicates()) by {
                        assert forall|i: int| 0 <= i < before.len() implies before[i] != v by {
                            assert(before.contains(before[i]));
                        }
                    }
                }
            }
        },
        TermData::App(_, _, _) => {
            let args = arena.args(term);
            let ghost t = arena.tree(term);
            let ghost ts = arena.trees(args@);
            let mut i: usize = 0;
            while i < args.len()
                invariant
                    arena.wf(),
                    arena.valid(term),
                    arena.all_valid(args@),
                    forall|k: int| 0 <= k < args@.len() ==> (#[trigger] args@[k]) < term,
                    ts == arena.trees(args@),
                    i <= args@.len(),
                    collected(seen@, order@),
                    order@ == trees_vars(ts, i as nat, old(order)@),
                    forall|v: VarId| #[trigger]
                        seen@.contains(v) <==> old(seen)@.contains(v) || exists|k: int|
                            0 <= k < i && (#[trigger] ts[k]).has_var(v),
                decreases args@.len() - i,
            {
                let ghost before = seen@;
                collect_vars(args[i], arena, seen, order);
                proof {
                    assert(ts[i as int] == arena.tree(args@[i as int]));
                    assert forall|v: VarId| #[trigger] seen@.contains(v) <==> old(seen)@.contains(
                        v,
                    ) || exists|k: int| 0 <= k < i + 1 && (#[trigger] ts[k]).has_var(v) by {
                        if before.contains(v) && !old(seen)@.contains(v) {
                            let k = choose|k: int| 0 <= k < i && (#[trigger] ts[k]).has_var(v);
                            assert(ts[k].has_var(v));
                        }
                        if ts[i as int].has_var(v) {
                            assert(ts[i as int].has_var(v));
                        }
                    }
                }
                i += 1;
            }
            assert forall|v: VarId| t.has_var(v) <==> exists|k: int|
                0 <= k < ts.len() && (#[trigger] ts[k]).has_var(v) by {
                assert(t->App_1 == ts);
            }
        },
    }
}

/// Adds the variables of a list of literals.
fn collect_lit_vars(
    literals: &[Literal],
    arena: &TermArena,
    seen: &mut HashSet<VarId>,
    order: &mut Vec<VarId>,
)
    requires
        arena.wf(),
        lits_valid(views(literals@), arena),
        old(seen)@ == Set::<VarId>::empty(),
        old(order)@.len() == 0,
    ensures
        collected(final(seen)@, final(order)@),
        final(seen)@ == vars_of(lits(views(literals@), arena)),
        final(order)@ == var_order(lits(views(literals@), arena), literals@.len()),
{
    let ghost vs = views(literals@);
    let ghost ls = lits(vs, arena);
    assert(order@.to_set() =~= Set::<VarId>::empty());
    assert(order@ =~= Seq::<VarId>::empty());
    let mut i: usize = 0;
    while i < literals.len()
        invariant
            arena.wf(),
            vs == views(literals@),
            ls == lits(vs, arena),
            lits_valid(vs, arena),
            i <= literals@.len(),
            collected(seen@, order@),
            order@ == var_order(ls, i as nat),
            forall|v: VarId| #[trigger]
                seen@.contains(v) <==> exists|k: int| 0 <= k < i && (#[trigger] ls[k]).has_var(v),
        decreases literals@.len() - i,
    {
        let ghost before = seen@;
        let ghost ts = ls[i as int].args;
        assert(vs[i as int].valid(arena));
        let mut j: usize = 0;
        while j < literals[i].args.len()
            invariant
                arena.wf(),
                i < literals@.len(),
                vs == views(literals@),
                vs[i as int].valid(arena),
                ts == arena.trees(literals@[i as int].args@),
                j <= literals@[i as int].args@.len(),
                collected(seen@, order@),
                order@ == trees_vars(ts, j as nat, var_order(ls, i as nat)),
                forall|v: VarId| #[trigger]
                    seen@.contains(v) <==> before.contains(v) || exists|k: int|
                        0 <= k < j && (#[trigger] ts[k]).has_var(v),
            decreases literals@[i as int].args@.len() - j,
        {
            let ghost mid = seen@;
            assert(arena.valid(vs[i as int].args[j as int]));
            collect_vars(literals[i].args[j], arena, seen, order);
            proof {
                assert(ts[j as int] == arena.tree(literals@[i as int].args@[j as int]));
                assert forall|v: VarId| #[trigger] seen@.contains(v) <==> before.contains(v)
                    || exists|k: int| 0 <= k < j + 1 && (#[trigger] ts[k]).has_var(v) by {
                    if mid.contains(v) && !before.contains(v) {
                        let k = choose|k: int| 0 <= k < j && (#[trigger] ts[k]).has_var(v);
                        assert(ts[k].has_var(v));
                    }
                    if ts[j as int].has_var(v) {
                        assert(ts[j as int].has_var(v));
                    }
                }
            }
            j += 1;
        }
        proof {
            assert forall|v: VarId| #[trigger] seen@.contains(v) <==> exists|k: int|
                0 <= k < i + 1 && (#[trigger] ls[k]).has_var(v) by {
                assert(ls[i as int].has_var(v) == any_has_var(ts, v));
                if before.contains(v) {
                    let k = choose|k: int| 0 <= k < i && (#[trigger] ls[k]).has_var(v);
                    assert(ls[k].has_var(v));
                }
                if any_has_var(ts, v) {
                    assert(ls[i as int].has_var(v));
                }
            }
        }
        i += 1;
    }
    assert(seen@ =~= vars_of(ls));
}

/// Draws from the generator until the result is not in `avoid`; `None` where
/// the variables run out.
fn next_free(var_gen: &mut VarGen, avoid: &HashSet<VarId>) -> (r: Option<VarId>)
    ensures
        old(var_gen).next() <= final(var_gen).next(),
        match r {
            Some(v) => {
                &&& !avoid@.contains(v)
                &&& old(var_gen).next() <= v
                &&& v + 1 == final(var_gen).next()
                &&& forall|m: nat|
                    m >= 1 ==> #[trigger] skip(avoid@, old(var_gen).next() as int, m) == skip(
                        avoid@,
                        final(var_gen).next() as int,
                        (m - 1) as nat,
                    )
                &&& v == nth_free(avoid@, old(var_gen).next() as int, 0)
                &&& forall|m: nat|
                    m >= 1 ==> #[trigger] nth_free(avoid@, old(var_gen).next() as int, m)
                        == nth_free(avoid@, final(var_gen).next() as int, (m - 1) as nat)
            },
            None => {
                &&& final(var_gen).exhausted()
                &&& forall|m: nat|
                    m >= 1 ==> #[trigger] skip(avoid@, old(var_gen).next() as int, m) > u32::MAX
            },
        },
{
    loop
        invariant
            old(var_gen).next() <= var_gen.next(),
            forall|m: nat|
                m >= 1 ==> #[trigger] skip(avoid@, old(var_gen).next() as int, m) == skip(
                    avoid@,
                    var_gen.next() as int,
                    m,
                ),
            forall|m: nat| #[trigger]
                nth_free(avoid@, old(var_gen).next() as int, m) == nth_free(
                    avoid@,
                    var_gen.next() as int,
                    m,
                ),
        decreases u32::MAX - var_gen.next(),
    {
        if var_gen.next == u32::MAX {
            return None;
        }
        let v: VarId = var_gen.fresh();
        if !avoid.contains(&v) {
            return Some(v);
        }
    }
}

/// The literal with every binding carried out, or `None` where the arena has
/// no room.
fn try_apply_to_literal(lit: &Literal, subst: &Substitution, arena: &mut TermArena) -> (r: Option<
    Literal,
>)
    requires
        old(arena).wf(),
        lit@.valid(old(arena)),
        bound_valid(subst@, old(arena)),
        acyclic(tree_map(subst@, old(arena))),
    ensures
        final(arena).wf(),
        final(arena).extends(old(arena)),
        ({
            let result = lit@.lit(old(arena)).inst(closure(tree_map(subst@, old(arena))));
            &&& match r {
                Some(l) => {
                    &&& l@.valid(final(arena))
                    &&& l@.lit(final(arena)) == result
                    &&& final(arena).forest() == plant_list(
                        old(arena).forest(),
                        result.args,
                        result.args.len(),
                    )
                },
                None => !numbered(
                    plant_list(old(arena).forest(), result.args, result.args.len()),
                ),
            }
            &&& final(arena).forest().is_prefix_of(
                plant_list(old(arena).forest(), result.args, result.args.len()),
            )
        }),
{
    let ghost b = tree_map(subst@, old(arena));
    let ghost ts = old(arena).trees(lit.args@);
    let ghost insts = inst_all(ts, closure(b));
    let mut new_args: Vec<TermId> = Vec::new();
    let mut i: usize = 0;
    while i < lit.args.len()
        invariant
            old(arena).wf(),
            arena.wf(),
            arena.extends(old(arena)),
            lit@.valid(old(arena)),
            bound_valid(subst@, old(arena)),
            b == tree_map(subst@, old(arena)),
            acyclic(b),
            ts == old(arena).trees(lit.args@),
            insts == inst_all(ts, closure(b)),
            i <= lit.args@.len(),
            new_args@.len() == i,
            arena.all_valid(new_args@),
            forall|k: int| 0 <= k < i ==> arena.tree(#[trigger] new_args@[k]) == insts[k],
            arena.forest() == plant_list(old(arena).forest(), insts, i as nat),
        decreases lit.args@.len() - i,
    {
        let ghost before = *arena;
        proof {
            lemma_plant_list_prefix(old(arena).forest(), insts, (i + 1) as nat, insts.len());
            lemma_tree_map_extends(subst@, old(arena), arena);
            arena.lemma_extends(old(arena));
            assert(old(arena).valid(lit@.args[i as int]));
            assert(ts[i as int] == old(arena).tree(lit.args@[i as int]));
            lemma_full_acyclic(b, ts[i as int]);
            lemma_full_inst(b, ts[i as int]);
        }
        match subst.try_apply(lit.args[i], arena) {
            Some(id) => {
                proof {
                    arena.lemma_extends(&before);
                    assert(arena.extends(old(arena)));
                    let done = new_args@;
                    assert forall|k: int| 0 <= k < i implies arena.valid(#[trigger] done[k])
                        && arena.tree(done[k]) == insts[k] by {
                        assert(before.valid(done[k]));
                    }
                }
                new_args.push(id);
            },
            None => {
                proof {
                    let step = plant_list(old(arena).forest(), insts, (i + 1) as nat);
                    let all = plant_list(old(arena).forest(), insts, insts.len());
                    lemma_prefix_trans(arena.forest(), step, all);
                    if numbered(all) {
                        lemma_numbered_prefix(step, all);
                    }
                }
                return None;
            },
        }
        i += 1;
    }
    let r = Literal { polarity: lit.polarity, predicate: lit.predicate, args: new_args };
    proof {
        assert(arena.trees(r.args@) =~= insts);
        lemma_plant_list_prefix(old(arena).forest(), insts, insts.len(), insts.len());
    }
    Some(r)
}

proof fn lemma_rename_size(t: Tree, r: Map<VarId, VarId>)
    ensures
        t.inst(ren(r)).size() == t.size(),
    decreases t, 0nat,
{
    if let Tree::App(f, args) = t {
        lemma_inst_app(f, args, ren(r));
        lemma_rename_sizes(args, args.len(), r);
    }
}

proof fn lemma_rename_sizes(ts: Seq<Tree>, k: nat, r: Map<VarId, VarId>)
    requires
        k <= ts.len(),
    ensures
        sizes(inst_all(ts, ren(r)), k) == sizes(ts, k),
    decreases ts, k,
{
    if k > 0 {
        lemma_rename_sizes(ts, (k - 1) as nat, r);
        lemma_rename_size(ts[k - 1], r);
    }
}

/// Instances of a literal under assignments that agree on its variables are
/// equal.
pub proof fn lemma_lit_inst_agree(l: Lit, tau1: Assignment, tau2: Assignment)
    requires
        forall|v: VarId| l.has_var(v) ==> #[trigger] tau1(v) == tau2(v),
    ensures
        l.inst(tau1) == l.inst(tau2),
{
    assert forall|i: int| 0 <= i < l.args.len() implies l.args[i].inst(tau1) == (
    #[trigger] l.args[i]).inst(tau2) by {
        assert forall|v: VarId| l.args[i].has_var(v) implies #[trigger] tau1(v) == tau2(v) by {
            assert(l.has_var(v));
        }
        lemma_inst_agree(l.args[i], tau1, tau2);
    }
    assert(inst_all(l.args, tau1) =~= inst_all(l.args, tau2));
}

spec fn var_bindings(r: Map<VarId, VarId>) -> Bindings {
    r.map_values(|v: VarId| Tree::Var(v))
}

/// Carrying out a renaming as a substitution is instantiating with it.
proof fn lemma_renaming_closure(r: Map<VarId, VarId>, from: Set<VarId>)
    requires
        is_renaming(r, from),
        from.finite(),
    ensures
        acyclic(var_bindings(r)),
        forall|v: VarId| #[trigger] closure(var_bindings(r))(v) == ren(r)(v),
{
    let b = var_bindings(r);
    assert(b.dom() =~= from);
    let rank = |v: VarId| 0nat;
    assert(ranked(b, rank)) by {
        assert forall|v: VarId, w: VarId|
            b.contains_key(v) && #[trigger] b[v].has_var(w) && b.contains_key(w) implies rank(w)
            < rank(v) by {
            assert(from.contains(v));
        }
    }
    assert forall|v: VarId| #[trigger] closure(b)(v) == ren(r)(v) by {
        lemma_full_acyclic(b, Tree::Var(v));
        if b.contains_key(v) {
            assert(from.contains(v));
            lemma_full_acyclic(b, Tree::Var(r[v]));
        }
    }
}

proof fn lemma_vars_finite(ls: Seq<Lit>)
    ensures
        vars_of(ls).finite(),
{
    crate::bindings::lemma_all_vars();
    assert(vars_of(ls).subset_of(all_vars()));
    vstd::set_lib::lemma_set_subset_finite(all_vars(), vars_of(ls));
}

/// Whether what was used is between two stocks.
pub open spec fn used_up_to(before: Stock, now: Stock, goal: Stock) -> bool {
    &&& before.next <= now.next <= goal.next
    &&& now.forest.is_prefix_of(goal.forest)
}

/// Building the new variables comes before building the literals.
proof fn lemma_renaming_steps(f: Forest, ls: Seq<Lit>, lo: int, k: nat)
    requires
        k <= fresh_names(ls, lo).len(),
    ensures
        plant_list(f, var_trees(fresh_names(ls, lo)), k).is_prefix_of(
            after_renaming(Stock { forest: f, next: lo }, ls).forest,
        ),
{
    let trees = var_trees(fresh_names(ls, lo));
    let a = plant_list(f, trees, trees.len());
    lemma_plant_list_prefix(f, trees, k, trees.len());
    lemma_plant_lits_prefix(a, renamed(ls, lo), 0, ls.len());
    lemma_prefix_trans(
        plant_list(f, trees, k),
        a,
        after_renaming(Stock { forest: f, next: lo }, ls).forest,
    );
}

/// A copy of the literals in which every variable is replaced by one from
/// `var_gen`, or `None` where variables or terms run out.
pub(crate) fn try_rename_apart(
    literals: &[Literal],
    var_gen: &mut VarGen,
    arena: &mut TermArena,
) -> (r: Option<Vec<Literal>>)
    requires
        old(arena).wf(),
        lits_valid(views(literals@), old(arena)),
    ensures
        final(arena).wf(),
        final(arena).extends(old(arena)),
        ({
            let ls = lits(views(literals@), old(arena));
            let next = old(var_gen).next() as int;
            let goal = after_renaming(stock(old(arena), old(var_gen)), ls);
            &&& used_up_to(
                stock(old(arena), old(var_gen)),
                stock(final(arena), final(var_gen)),
                goal,
            )
            &&& match r {
                Some(out) => {
                    &&& lits_valid(views(out@), final(arena))
                    &&& lits(views(out@), final(arena)) == renamed(ls, next)
                    &&& renamed_apart(ls, renamed(ls, next), next, goal.next)
                    &&& stock(final(arena), final(var_gen)) == goal
                },
                None => !goal.in_range(),
            }
        }),
{
    let ghost ls = lits(views(literals@), old(arena));
    let ghost vs = vars_of(ls);
    let ghost lo = var_gen.next() as int;
    let ghost f0 = arena.forest();
    let ghost names = fresh_names(ls, lo);
    let ghost trees = var_trees(names);
    let ghost goal = after_renaming(stock(arena, var_gen), ls);
    let mut seen: HashSet<VarId> = HashSet::new();
    let mut order: Vec<VarId> = Vec::new();
    collect_lit_vars(literals, arena, &mut seen, &mut order);
    let mut subst = Substitution::new();
    let ghost mut r: Map<VarId, VarId> = Map::empty();
    proof {
        lemma_vars_finite(ls);
        order@.unique_seq_to_set();
        assert(literals@.len() == ls.len());
        skip_moves_on(vs, lo, vs.len());
        lemma_renaming_steps(f0, ls, lo, 0);
        assert(tree_map(subst@, arena) =~= var_bindings(r));
    }
    let mut i: usize = 0;
    while i < order.len()
        invariant
            old(arena).wf(),
            arena.wf(),
            arena.extends(old(arena)),
            ls == lits(views(literals@), old(arena)),
            vs == vars_of(ls),
            collected(seen@, order@),
            seen@ == vs,
            vs.len() == order@.len(),
            i <= order@.len(),
            lo == old(var_gen).next(),
            lo <= var_gen.next(),
            skip(vs, var_gen.next() as int, (order@.len() - i) as nat) == skip(vs, lo, vs.len()),
            bound_valid(subst@, arena),
            tree_map(subst@, arena) == var_bindings(r),
            forall|v: VarId| #[trigger]
                r.contains_key(v) <==> exists|k: int| 0 <= k < i && #[trigger] order@[k] == v,
            forall|v: VarId, w: VarId|
                r.contains_key(v) && r.contains_key(w) && #[trigger] r[v] == #[trigger] r[w] ==> v
                    == w,
            forall|v: VarId| #[trigger] r.contains_key(v) ==> !vs.contains(r[v]),
            within(r, lo, var_gen.next() as int),
            order@ == var_order(ls, ls.len()),
            names == fresh_names(ls, lo),
            trees == var_trees(names),
            f0 == old(arena).forest(),
            goal == after_renaming(stock(old(arena), old(var_gen)), ls),
            arena.forest() == plant_list(f0, trees, i as nat),
            forall|k: int| 0 <= k < i ==> r[#[trigger] order@[k]] == names[k],
            forall|m: nat| #[trigger]
                nth_free(vs, var_gen.next() as int, m) == nth_free(vs, lo, (i + m) as nat),
        decreases order@.len() - i,
    {
        proof {
            lemma_renaming_steps(f0, ls, lo, i as nat);
            lemma_renaming_steps(f0, ls, lo, (i + 1) as nat);
            skip_moves_on(vs, var_gen.next() as int, (order@.len() - i) as nat);
        }
        let ghost from = var_gen.next() as int;
        let v: VarId = order[i];
        assert(order@.to_set().contains(v));
        assert(!r.contains_key(v)) by {
            if r.contains_key(v) {
                let k = choose|k: int| 0 <= k < i && #[trigger] order@[k] == v;
                assert(order@[k] == order@[i as int]);
            }
        }
        let fresh: VarId = match next_free(var_gen, &seen) {
            Some(f) => f,
            None => {
                return None;
            },
        };
        let ghost before = *arena;
        proof {
            assert(nth_free(vs, from, 0) == nth_free(vs, lo, i as nat));
            assert(names[i as int] == fresh);
            assert(trees[i as int] == Tree::Var(fresh));
            let grown = plant_list(f0, trees, (i + 1) as nat);
            assert(grown == plant(plant_list(f0, trees, i as nat), trees[i as int]));
            assert(grown == with_tree(arena.forest(), Tree::Var(fresh)));
            skip_moves_on(vs, var_gen.next() as int, (order@.len() - i - 1) as nat);
        }
        let fresh_term: TermId = match arena.try_mk_var(fresh) {
            Some(t) => t,
            None => {
                proof {
                    let step = plant_list(f0, trees, (i + 1) as nat);
                    if numbered(goal.forest) {
                        lemma_numbered_prefix(step, goal.forest);
                    }
                }
                return None;
            },
        };
        proof {
            assert forall|m: nat| #[trigger]
                nth_free(vs, var_gen.next() as int, m) == nth_free(vs, lo, (i + 1 + m) as nat) by {
                assert(nth_free(vs, from, m + 1) == nth_free(vs, var_gen.next() as int, m));
                assert(nth_free(vs, from, m + 1) == nth_free(vs, lo, (i + (m + 1)) as nat));
            }
            assert forall|k: int| 0 <= k < i implies order@[k] != v by {
                assert(order@[k] != order@[i as int]);
            }
            lemma_tree_map_extends(subst@, &before, arena);
            lemma_tree_map_insert(subst@, v, fresh_term, arena);
            assert(var_bindings(r.insert(v, fresh)) =~= var_bindings(r).insert(
                v,
                Tree::Var(fresh),
            ));
            assert forall|w: VarId| #[trigger] r.insert(v, fresh).contains_key(w) <==> exists|
                k: int,
            |
                0 <= k < i + 1 && #[trigger] order@[k] == w by {
                assert(order@[i as int] == v);
                if r.contains_key(w) {
                    let k = choose|k: int| 0 <= k < i && #[trigger] order@[k] == w;
                    assert(order@[k] == w);
                }
            }
            r = r.insert(v, fresh);
        }
        subst.bind(v, fresh_term);
        i += 1;
    }
    let ghost b = var_bindings(r);
    let ghost named_arena = *arena;
    proof {
        assert(r.dom() =~= vs) by {
            assert forall|v: VarId| vs.contains(v) implies r.contains_key(v) by {
                assert(order@.to_set().contains(v));
                let k = choose|k: int| 0 <= k < order@.len() && order@[k] == v;
                assert(order@[k] == v);
            }
            assert forall|v: VarId| r.contains_key(v) implies vs.contains(v) by {
                let k = choose|k: int| 0 <= k < i && #[trigger] order@[k] == v;
                assert(order@.to_set().contains(order@[k]));
            }
        }
        assert(is_renaming(r, vs));
        assert(r =~= renaming(ls, lo)) by {
            assert forall|v: VarId| #[trigger] r.contains_key(v) implies r[v] == renaming(
                ls,
                lo,
            )[v] by {
                let k = choose|k: int| 0 <= k < i && #[trigger] order@[k] == v;
                assert(order@.contains(v));
                let at = order@.index_of(v);
                assert(order@[at] == v);
                assert(at == k);
                assert(r[order@[k]] == names[k]);
            }
        }
        lemma_renaming_steps(f0, ls, lo, order@.len());
        lemma_renaming_closure(r, vs);
        lemma_lits_extends(views(literals@), old(arena), arena);
    }
    let mut out: Vec<Literal> = Vec::new();
    let mut j: usize = 0;
    while j < literals.len()
        invariant
            old(arena).wf(),
            arena.wf(),
            named_arena.wf(),
            named_arena.extends(old(arena)),
            arena.extends(&named_arena),
            lits_valid(views(literals@), &named_arena),
            ls == lits(views(literals@), &named_arena),
            ls == lits(views(literals@), old(arena)),
            old(var_gen).next() <= var_gen.next(),
            bound_valid(subst@, &named_arena),
            b == tree_map(subst@, &named_arena),
            acyclic(b),
            b == var_bindings(r),
            forall|v: VarId| #[trigger] closure(b)(v) == ren(r)(v),
            j <= literals@.len(),
            out@.len() == j,
            lits_valid(views(out@), arena),
            forall|k: int|
                0 <= k < j ==> (#[trigger] views(out@)[k]).lit(arena) == ls[k].inst(ren(r)),
            vs == vars_of(ls),
            r == renaming(ls, lo),
            lo == old(var_gen).next(),
            f0 == old(arena).forest(),
            named_arena.forest() == plant_list(f0, trees, trees.len()),
            trees == var_trees(fresh_names(ls, lo)),
            goal == after_renaming(stock(old(arena), old(var_gen)), ls),
            var_gen.next() == goal.next,
            arena.forest() == plant_lits(
                named_arena.forest(),
                renamed(ls, lo),
                j as nat,
            ),
        decreases literals@.len() - j,
    {
        let ghost before = *arena;
        let ghost view = views(literals@)[j as int];
        proof {
            assert(view.valid(&named_arena));
            lemma_lit_extends(view, &named_arena, arena);
            lemma_tree_map_extends(subst@, &named_arena, arena);
            assert(ls[j as int] == view.lit(&named_arena));
            lemma_lit_inst_agree(ls[j as int], closure(b), ren(r));
            assert(renamed(ls, lo)[j as int] == ls[j as int].inst(ren(r)));
            lemma_plant_lits_prefix(
                named_arena.forest(),
                renamed(ls, lo),
                (j + 1) as nat,
                ls.len(),
            );
        }
        match try_apply_to_literal(&literals[j], &subst, arena) {
            Some(l) => {
                proof {
                    assert(arena.extends(&named_arena));
                    let done = views(out@);
                    lemma_lits_extends(done, &before, arena);
                    assert forall|k: int| 0 <= k < j implies (#[trigger] done[k]).lit(arena)
                        == ls[k].inst(ren(r)) by {
                        assert(lits(done, arena)[k] == lits(done, &before)[k]);
                    }
                    assert(views(out@.push(l)) =~= done.push(l@));
                }
                out.push(l);
            },
            None => {
                proof {
                    let step = plant_lits(named_arena.forest(), renamed(ls, lo), (j + 1) as nat);
                    lemma_prefix_trans(arena.forest(), step, goal.forest);
                    if numbered(goal.forest) {
                        lemma_numbered_prefix(step, goal.forest);
                    }
                }
                return None;
            },
        }
        j += 1;
    }
    proof {
        assert(arena.extends(old(arena)));
        assert(lits(views(out@), arena) =~= inst_lits(ls, ren(r)));
        lemma_plant_lits_prefix(named_arena.forest(), renamed(ls, lo), ls.len(), ls.len());
    }
    Some(out)
}

/// `out` is `ls` with its variables renamed to variables that a generator at
/// `lo` hands out before it stands at `hi`.
pub open spec fn renamed_apart(ls: Seq<Lit>, out: Seq<Lit>, lo: int, hi: int) -> bool {
    &&& hi == skip(vars_of(ls), lo, vars_of(ls).len())
    &&& exists|r: Map<VarId, VarId>| #[trigger]
        is_renaming(r, vars_of(ls)) && within(r, lo, hi) && out == inst_lits(ls, ren(r))
}

/// A copy of the literals in which every variable is replaced by a variable
/// from `var_gen`: the same variable by the same one throughout, different
/// ones by different ones, and none by a variable of the literals.
pub fn rename_apart(literals: &[Literal], var_gen: &mut VarGen, arena: &mut TermArena) -> (r: Vec<
    Literal,
>)
    requires
        old(arena).wf(),
        lits_valid(views(literals@), old(arena)),
        after_renaming(
            stock(old(arena), old(var_gen)),
            lits(views(literals@), old(arena)),
        ).in_range(),
    ensures
        final(arena).wf(),
        final(arena).extends(old(arena)),
        lits_valid(views(r@), final(arena)),
        lits(views(r@), final(arena)) == renamed(
            lits(views(literals@), old(arena)),
            old(var_gen).next() as int,
        ),
        stock(final(arena), final(var_gen)) == after_renaming(
            stock(old(arena), old(var_gen)),
            lits(views(literals@), old(arena)),
        ),
        renamed_apart(
            lits(views(literals@), old(arena)),
            lits(views(r@), final(arena)),
            old(var_gen).next() as int,
            final(var_gen).next() as int,
        ),
{
    match try_rename_apart(literals, var_gen, arena) {
        Some(out) => out,
        None => Vec::new(),
    }
}

/// The literals of a derived clause, and how they were derived.
pub type InferenceResult = (Vec<Literal>, InferenceInfo);

/// Whether some assignment makes two argument lists equal.
pub open spec fn unifiable(ss: Seq<Tree>, ts: Seq<Tree>) -> bool {
    ss.len() == ts.len() && exists|tau: Assignment| #[trigger] agree_from(ss, ts, 0, tau)
}

/// A most general unifier of two argument lists: the assignments that agree
/// with it are those that make the lists equal.
pub open spec fn is_mgu(b: Bindings, ss: Seq<Tree>, ts: Seq<Tree>) -> bool {
    &&& ss.len() == ts.len()
    &&& acyclic(b)
    &&& forall|tau: Assignment| #[trigger] solves(b, tau) <==> agree_from(ss, ts, 0, tau)
}

/// The most general unifier that unification finds for two argument lists.
pub open spec fn is_unifier(b: Bindings, ss: Seq<Tree>, ts: Seq<Tree>) -> bool {
    &&& is_mgu(b, ss, ts)
    &&& b == unify_lists_outcome(Map::empty(), ss, ts).1
}

/// Whether two literals of clauses without common variables can be resolved
/// upon.
pub open spec fn resolvable(l1: Lit, l2: Lit) -> bool {
    &&& l1.positive != l2.positive
    &&& l1.predicate == l2.predicate
    &&& unifiable(l1.args, l2.args)
}

/// Whether two literals of one clause can be merged.
pub open spec fn mergeable(l1: Lit, l2: Lit) -> bool {
    &&& l1.positive == l2.positive
    &&& l1.predicate == l2.predicate
    &&& unifiable(l1.args, l2.args)
}

/// The positions that a rule was applied to.
pub open spec fn pair_of(rule: RuleView) -> (int, int) {
    match rule {
        RuleView::Resolution { left_lit, right_lit, .. } => (left_lit as int, right_lit as int),
        RuleView::Factoring { lit_a, lit_b, .. } => (lit_a as int, lit_b as int),
        _ => (-1, -1),
    }
}

/// The order in which pairs of positions are tried.
pub open spec fn pair_before(p: (int, int), q: (int, int)) -> bool {
    p.0 < q.0 || (p.0 == q.0 && p.1 < q.1)
}

/// `concl` is the resolvent of `d1` and `d2`, which share no variables, upon
/// the positions in the rule: what is left of both under a most general
/// unifier of the two literals.
pub open spec fn resolution_entry(
    id1: u32,
    id2: u32,
    d1: Seq<Lit>,
    d2: Seq<Lit>,
    arena: &TermArena,
    concl: Seq<LitIds>,
    info: InferenceView,
) -> bool {
    &&& lits_valid(concl, arena)
    &&& info.parents == seq![id1, id2]
    &&& info.rule matches RuleView::Resolution { left, left_lit, right, right_lit, unifier }
    &&& left == id1
    &&& right == id2
    &&& left_lit < d1.len()
    &&& right_lit < d2.len()
    &&& bound_valid(unifier, arena)
    &&& {
        let l1 = d1[left_lit as int];
        let l2 = d2[right_lit as int];
        let b = tree_map(unifier, arena);
        &&& l1.positive != l2.positive
        &&& l1.predicate == l2.predicate
        &&& is_unifier(b, l1.args, l2.args)
        &&& lits(concl, arena) == inst_lits(
            d1.remove(left_lit as int) + d2.remove(right_lit as int),
            closure(b),
        )
    }
}

/// `concl` is the factor of `d` at the positions in the rule: the clause
/// without the later literal, under a most general unifier of the two.
pub open spec fn factoring_entry(
    id: u32,
    d: Seq<Lit>,
    arena: &TermArena,
    concl: Seq<LitIds>,
    info: InferenceView,
) -> bool {
    &&& lits_valid(concl, arena)
    &&& info.parents == seq![id]
    &&& info.rule matches RuleView::Factoring { parent, lit_a, lit_b, unifier }
    &&& parent == id
    &&& lit_a < lit_b < d.len()
    &&& bound_valid(unifier, arena)
    &&& {
        let l1 = d[lit_a as int];
        let l2 = d[lit_b as int];
        let b = tree_map(unifier, arena);
        &&& l1.positive == l2.positive
        &&& l1.predicate == l2.predicate
        &&& is_unifier(b, l1.args, l2.args)
        &&& lits(concl, arena) == inst_lits(d.remove(lit_b as int), closure(b))
    }
}

/// The most general unifier that unification finds for two literals.
pub open spec fn unified(l1: Lit, l2: Lit) -> Bindings {
    unify_lists_outcome(Map::empty(), l1.args, l2.args).1
}

/// The resolvent of `d1` and `d2` upon the literals `i` and `j`.
pub open spec fn resolvent(d1: Seq<Lit>, d2: Seq<Lit>, i: int, j: int) -> Seq<Lit> {
    inst_lits(d1.remove(i) + d2.remove(j), closure(unified(d1[i], d2[j])))
}

/// The factor of `d` at the literals `i` and `j`.
pub open spec fn factor_at(d: Seq<Lit>, i: int, j: int) -> Seq<Lit> {
    inst_lits(d.remove(j), closure(unified(d[i], d[j])))
}

/// The forest after resolving upon `i` and `j`, where that can be done.
pub open spec fn after_pair(f: Forest, d1: Seq<Lit>, d2: Seq<Lit>, i: int, j: int) -> Forest {
    if resolvable(d1[i], d2[j]) {
        plant_lits(f, resolvent(d1, d2, i, j), resolvent(d1, d2, i, j).len())
    } else {
        f
    }
}

/// The forest after resolving upon literal `i` of `d1` and the first `j`
/// literals of `d2`.
pub open spec fn after_row(f: Forest, d1: Seq<Lit>, d2: Seq<Lit>, i: int, j: nat) -> Forest
    decreases j,
{
    if j == 0 {
        f
    } else {
        after_pair(after_row(f, d1, d2, i, (j - 1) as nat), d1, d2, i, j - 1)
    }
}

/// The forest after resolving upon the first `i` literals of `d1` and all of
/// `d2`.
pub open spec fn after_rows(f: Forest, d1: Seq<Lit>, d2: Seq<Lit>, i: nat) -> Forest
    decreases i,
{
    if i == 0 {
        f
    } else {
        after_row(after_rows(f, d1, d2, (i - 1) as nat), d1, d2, i - 1, d2.len())
    }
}

/// The stock after deriving every resolvent of two clauses: both are renamed,
/// then the resolvents are built in order.
pub open spec fn after_resolving(s: Stock, ls1: Seq<Lit>, ls2: Seq<Lit>) -> Stock {
    let s1 = after_renaming(s, ls1);
    let s2 = after_renaming(s1, ls2);
    Stock {
        forest: after_rows(
            s2.forest,
            renamed(ls1, s.next),
            renamed(ls2, s1.next),
            ls1.len(),
        ),
        next: s2.next,
    }
}

/// The forest after merging the literals `i` and `j`, where that can be done.
pub open spec fn after_merge(f: Forest, d: Seq<Lit>, i: int, j: int) -> Forest {
    if i < j && mergeable(d[i], d[j]) {
        plant_lits(f, factor_at(d, i, j), factor_at(d, i, j).len())
    } else {
        f
    }
}

/// The forest after merging literal `i` with the later ones below `j`.
pub open spec fn after_merges(f: Forest, d: Seq<Lit>, i: int, j: nat) -> Forest
    decreases j,
{
    if j == 0 {
        f
    } else {
        after_merge(after_merges(f, d, i, (j - 1) as nat), d, i, j - 1)
    }
}

/// The forest after merging each of the first `i` literals with later ones.
pub open spec fn after_factors(f: Forest, d: Seq<Lit>, i: nat) -> Forest
    decreases i,
{
    if i == 0 {
        f
    } else {
        after_merges(after_factors(f, d, (i - 1) as nat), d, i - 1, d.len())
    }
}

/// The stock after deriving every factor of a clause.
pub open spec fn after_factoring(s: Stock, d: Seq<Lit>) -> Stock {
    Stock { forest: after_factors(s.forest, d, d.len()), next: s.next }
}

proof fn lemma_after_row(f: Forest, d1: Seq<Lit>, d2: Seq<Lit>, i: int, j: nat, k: nat)
    requires
        j <= k,
    ensures
        after_row(f, d1, d2, i, j).is_prefix_of(after_row(f, d1, d2, i, k)),
    decreases k,
{
    let a = after_row(f, d1, d2, i, j);
    if j == k {
        assert(a =~= a.subrange(0, a.len() as int));
    } else {
        let b = after_row(f, d1, d2, i, (k - 1) as nat);
        let c = after_row(f, d1, d2, i, k);
        lemma_after_row(f, d1, d2, i, j, (k - 1) as nat);
        let r = resolvent(d1, d2, i, k - 1);
        lemma_plant_lits_prefix(b, r, 0, r.len());
        assert(b.is_prefix_of(c));
        lemma_prefix_trans(a, b, c);
    }
}

proof fn lemma_after_rows(f: Forest, d1: Seq<Lit>, d2: Seq<Lit>, i: nat, k: nat)
    requires
        i <= k,
    ensures
        after_rows(f, d1, d2, i).is_prefix_of(after_rows(f, d1, d2, k)),
    decreases k,
{
    let a = after_rows(f, d1, d2, i);
    if i == k {
        assert(a =~= a.subrange(0, a.len() as int));
    } else {
        let b = after_rows(f, d1, d2, (k - 1) as nat);
        lemma_after_rows(f, d1, d2, i, (k - 1) as nat);
        lemma_after_row(b, d1, d2, k - 1, 0, d2.len());
        lemma_prefix_trans(a, b, after_rows(f, d1, d2, k));
    }
}

proof fn lemma_after_merges(f: Forest, d: Seq<Lit>, i: int, j: nat, k: nat)
    requires
        j <= k,
    ensures
        after_merges(f, d, i, j).is_prefix_of(after_merges(f, d, i, k)),
        k <= i + 1 ==> after_merges(f, d, i, k) == f,
    decreases k,
{
    let a = after_merges(f, d, i, j);
    if k > 0 {
        lemma_after_merges(
            f,
            d,
            i,
            if j == k {
                (k - 1) as nat
            } else {
                j
            },
            (k - 1) as nat,
        );
    }
    if j == k {
        assert(a =~= a.subrange(0, a.len() as int));
    } else {
        let b = after_merges(f, d, i, (k - 1) as nat);
        let c = after_merges(f, d, i, k);
        let r = factor_at(d, i, k - 1);
        lemma_plant_lits_prefix(b, r, 0, r.len());
        assert(b =~= b.subrange(0, b.len() as int));
        assert(b.is_prefix_of(c));
        lemma_prefix_trans(a, b, c);
    }
}

proof fn lemma_after_factors(f: Forest, d: Seq<Lit>, i: nat, k: nat)
    requires
        i <= k,
    ensures
        after_factors(f, d, i).is_prefix_of(after_factors(f, d, k)),
    decreases k,
{
    let a = after_factors(f, d, i);
    if i == k {
        assert(a =~= a.subrange(0, a.len() as int));
    } else {
        let b = after_factors(f, d, (k - 1) as nat);
        lemma_after_factors(f, d, i, (k - 1) as nat);
        lemma_after_merges(b, d, k - 1, 0, d.len());
        lemma_prefix_trans(a, b, after_factors(f, d, k));
    }
}

/// Deriving resolvents starts with renaming the clauses.
proof fn lemma_resolving_steps(s: Stock, ls1: Seq<Lit>, ls2: Seq<Lit>)
    ensures
        after_renaming(s, ls1).forest.is_prefix_of(after_resolving(s, ls1, ls2).forest),
        after_renaming(after_renaming(s, ls1), ls2).forest.is_prefix_of(
            after_resolving(s, ls1, ls2).forest,
        ),
        0 <= s.next <= u32::MAX && after_renaming(s, ls1).next > u32::MAX ==> after_resolving(
            s,
            ls1,
            ls2,
        ).next > u32::MAX,
        0 <= s.next <= u32::MAX && after_renaming(s, ls1).next <= u32::MAX ==> s.next
            <= after_renaming(s, ls1).next <= after_resolving(s, ls1, ls2).next,
{
    let s1 = after_renaming(s, ls1);
    let s2 = after_renaming(s1, ls2);
    let s3 = after_resolving(s, ls1, ls2);
    let d1 = renamed(ls1, s.next);
    let d2 = renamed(ls2, s1.next);
    lemma_after_rows(s2.forest, d1, d2, 0, ls1.len());
    lemma_renaming_steps(s1.forest, ls2, s1.next, 0);
    lemma_prefix_trans(s1.forest, s2.forest, s3.forest);
    if 0 <= s.next <= u32::MAX {
        skip_moves_on(vars_of(ls1), s.next, vars_of(ls1).len());
        if s1.next <= u32::MAX {
            skip_moves_on(vars_of(ls2), s1.next, vars_of(ls2).len());
        }
    }
}

/// Whether one of the results was derived at these positions.
pub open spec fn found(results: Seq<InferenceResult>, p: (int, int)) -> bool {
    exists|k: int| 0 <= k < results.len() && pair_of((#[trigger] results[k]).1@.rule) == p
}

/// Whether the results come in the order in which the pairs are tried.
pub open spec fn in_order(results: Seq<InferenceResult>) -> bool {
    forall|k: int, l: int|
        0 <= k < l < results.len() ==> pair_before(
            pair_of((#[trigger] results[k]).1@.rule),
            pair_of((#[trigger] results[l]).1@.rule),
        )
}

/// The results are resolvents of `d1` and `d2`, in order, and where `all` is
/// true none is missing.
pub open spec fn resolvents(
    id1: u32,
    id2: u32,
    d1: Seq<Lit>,
    d2: Seq<Lit>,
    arena: &TermArena,
    results: Seq<InferenceResult>,
    all: bool,
) -> bool {
    &&& forall|k: int|
        0 <= k < results.len() ==> resolution_entry(
            id1,
            id2,
            d1,
            d2,
            arena,
            views((#[trigger] results[k]).0@),
            results[k].1@,
        )
    &&& in_order(results)
    &&& all ==> forall|i: int, j: int|
        0 <= i < d1.len() && 0 <= j < d2.len() && resolvable(
            #[trigger] d1[i],
            #[trigger] d2[j],
        ) ==> found(results, (i, j))
}

/// The results are factors of `d`, in order, and where `all` is true none is
/// missing.
pub open spec fn factors(
    id: u32,
    d: Seq<Lit>,
    arena: &TermArena,
    results: Seq<InferenceResult>,
    all: bool,
) -> bool {
    &&& forall|k: int|
        0 <= k < results.len() ==> factoring_entry(
            id,
            d,
            arena,
            views((#[trigger] results[k]).0@),
            results[k].1@,
        )
    &&& in_order(results)
    &&& all ==> forall|i: int, j: int|
        0 <= i < j < d.len() && mergeable(#[trigger] d[i], #[trigger] d[j]) ==> found(
            results,
            (i, j),
        )
}

/// `d1` and `d2` are renamings of two clauses with variables that a generator
/// hands out one after the other, so they share none.
pub open spec fn both_renamed(
    ls1: Seq<Lit>,
    ls2: Seq<Lit>,
    d1: Seq<Lit>,
    d2: Seq<Lit>,
    lo: int,
    hi: int,
) -> bool {
    exists|mid: int| #[trigger] renamed_apart(ls1, d1, lo, mid) && renamed_apart(ls2, d2, mid, hi)
}

pub proof fn lemma_resolution_entry_extends(
    id1: u32,
    id2: u32,
    d1: Seq<Lit>,
    d2: Seq<Lit>,
    older: &TermArena,
    newer: &TermArena,
    concl: Seq<LitIds>,
    info: InferenceView,
)
    requires
        older.wf(),
        newer.extends(older),
        resolution_entry(id1, id2, d1, d2, older, concl, info),
    ensures
        resolution_entry(id1, id2, d1, d2, newer, concl, info),
{
    lemma_lits_extends(concl, older, newer);
    if let RuleView::Resolution { unifier, .. } = info.rule {
        lemma_tree_map_extends(unifier, older, newer);
    }
}

pub proof fn lemma_factoring_entry_extends(
    id: u32,
    d: Seq<Lit>,
    older: &TermArena,
    newer: &TermArena,
    concl: Seq<LitIds>,
    info: InferenceView,
)
    requires
        older.wf(),
        newer.extends(older),
        factoring_entry(id, d, older, concl, info),
    ensures
        factoring_entry(id, d, newer, concl, info),
{
    lemma_lits_extends(concl, older, newer);
    if let RuleView::Factoring { unifier, .. } = info.rule {
        lemma_tree_map_extends(unifier, older, newer);
    }
}

/// A resolvent is derived upon literals that can be resolved upon.
pub proof fn lemma_resolution_resolves(
    id1: u32,
    id2: u32,
    d1: Seq<Lit>,
    d2: Seq<Lit>,
    arena: &TermArena,
    concl: Seq<LitIds>,
    info: InferenceView,
)
    requires
        resolution_entry(id1, id2, d1, d2, arena, concl, info),
    ensures
        ({
            let (i, j) = pair_of(info.rule);
            &&& 0 <= i < d1.len()
            &&& 0 <= j < d2.len()
            &&& resolvable(d1[i], d2[j])
            &&& lits(concl, arena) == resolvent(d1, d2, i, j)
        }),
{
    if let RuleView::Resolution { unifier, .. } = info.rule {
        let b = tree_map(unifier, arena);
        crate::bindings::lemma_closure_solves(b);
        assert(solves(b, closure(b)));
    }
}

/// A factor is derived at literals that can be merged.
pub proof fn lemma_factoring_merges(
    id: u32,
    d: Seq<Lit>,
    arena: &TermArena,
    concl: Seq<LitIds>,
    info: InferenceView,
)
    requires
        factoring_entry(id, d, arena, concl, info),
    ensures
        ({
            let (i, j) = pair_of(info.rule);
            &&& 0 <= i < j < d.len()
            &&& mergeable(d[i], d[j])
            &&& lits(concl, arena) == factor_at(d, i, j)
        }),
{
    if let RuleView::Factoring { unifier, .. } = info.rule {
        let b = tree_map(unifier, arena);
        crate::bindings::lemma_closure_solves(b);
        assert(solves(b, closure(b)));
    }
}

/// Appends all literals but the one at `skipped`, with every binding carried
/// out; `false` where the arena has no room for that.
fn push_applied(
    literals: &[Literal],
    skipped: usize,
    subst: &Substitution,
    arena: &mut TermArena,
    out: &mut Vec<Literal>,
) -> (r: bool)
    requires
        old(arena).wf(),
        lits_valid(views(literals@), old(arena)),
        skipped < literals@.len(),
        bound_valid(subst@, old(arena)),
        acyclic(tree_map(subst@, old(arena))),
        lits_valid(views(old(out)@), old(arena)),
    ensures
        final(arena).wf(),
        final(arena).extends(old(arena)),
        lits_valid(views(final(out)@), final(arena)),
        r ==> lits(views(final(out)@), final(arena)) == lits(views(old(out)@), old(arena))
            + inst_lits(
            lits(views(literals@), old(arena)).remove(skipped as int),
            closure(tree_map(subst@, old(arena))),
        ),
        ({
            let all = inst_lits(
                lits(views(literals@), old(arena)).remove(skipped as int),
                closure(tree_map(subst@, old(arena))),
            );
            let goal = plant_lits(old(arena).forest(), all, all.len());
            &&& final(arena).forest().is_prefix_of(goal)
            &&& r ==> final(arena).forest() == goal
            &&& !r ==> !numbered(goal)
        }),
{
    let ghost vs = views(literals@);
    let ghost ls = lits(vs, old(arena));
    let ghost b = tree_map(subst@, old(arena));
    let ghost tau = closure(b);
    let ghost start = lits(views(out@), old(arena));
    let ghost all = inst_lits(ls.remove(skipped as int), tau);
    let ghost f0 = arena.forest();
    let mut i: usize = 0;
    let ghost mut part: Seq<Lit> = Seq::empty();
    assert(inst_lits(part, tau) =~= Seq::empty());
    assert(start + inst_lits(part, tau) =~= start);
    while i < literals.len()
        invariant
            old(arena).wf(),
            arena.wf(),
            arena.extends(old(arena)),
            vs == views(literals@),
            lits_valid(vs, old(arena)),
            ls == lits(vs, old(arena)),
            skipped < literals@.len(),
            bound_valid(subst@, old(arena)),
            b == tree_map(subst@, old(arena)),
            acyclic(b),
            tau == closure(b),
            i <= literals@.len(),
            lits_valid(views(out@), arena),
            part == if i <= skipped {
                ls.take(i as int)
            } else {
                ls.take(i as int).remove(skipped as int)
            },
            lits(views(out@), arena) == start + inst_lits(part, tau),
            all == inst_lits(ls.remove(skipped as int), tau),
            f0 == old(arena).forest(),
            part.len() <= all.len(),
            arena.forest() == plant_lits(f0, all, part.len()),
        decreases literals@.len() - i,
    {
        if i != skipped {
            proof {
                assert(ls.remove(skipped as int)[part.len() as int] == ls[i as int]);
                assert(all[part.len() as int] == ls[i as int].inst(tau));
                lemma_plant_lits_prefix(f0, all, part.len() + 1, all.len());
            }
            let ghost before = *arena;
            let ghost done = views(out@);
            proof {
                assert(vs[i as int].valid(old(arena)));
                lemma_lit_extends(vs[i as int], old(arena), arena);
                lemma_tree_map_extends(subst@, old(arena), arena);
            }
            match try_apply_to_literal(&literals[i], subst, arena) {
                Some(l) => {
                    proof {
                        lemma_lits_extends(done, &before, arena);
                        assert(views(out@.push(l)) =~= done.push(l@));
                        assert(lits(done.push(l@), arena) =~= lits(done, arena).push(l@.lit(arena)));
                        let next = part.push(ls[i as int]);
                        if i < skipped {
                            assert(ls.take(i + 1) =~= next);
                        } else {
                            assert(ls.take(i + 1).remove(skipped as int) =~= next);
                        }
                        assert(inst_lits(next, tau) =~= inst_lits(part, tau).push(
                            ls[i as int].inst(tau),
                        ));
                        assert(start + inst_lits(next, tau) =~= (start + inst_lits(
                            part,
                            tau,
                        )).push(ls[i as int].inst(tau)));
                        part = next;
                    }
                    out.push(l);
                },
                None => {
                    proof {
                        lemma_lits_extends(done, &before, arena);
                        let step = plant_lits(f0, all, part.len() + 1);
                        let goal = plant_lits(f0, all, all.len());
                        lemma_prefix_trans(arena.forest(), step, goal);
                        if numbered(goal) {
                            lemma_numbered_prefix(step, goal);
                        }
                    }
                    return false;
                },
            }
        } else {
            assert(ls.take(i + 1).remove(skipped as int) =~= part);
        }
        i += 1;
    }
    assert(ls.take(i as int) =~= ls);
    proof {
        lemma_plant_lits_prefix(f0, all, all.len(), all.len());
    }
    true
}

/// Unifies two literals from scratch, giving a most general unifier where
/// there is one.
fn unify_pair(l1: &Literal, l2: &Literal, arena: &TermArena) -> (r: Option<Substitution>)
    requires
        arena.wf(),
        l1@.valid(arena),
        l2@.valid(arena),
        l1@.predicate == l2@.predicate,
    ensures
        match r {
            Some(subst) => {
                &&& bound_valid(subst@, arena)
                &&& is_unifier(tree_map(subst@, arena), l1@.lit(arena).args, l2@.lit(arena).args)
                &&& unifiable(l1@.lit(arena).args, l2@.lit(arena).args)
            },
            None => !unifiable(l1@.lit(arena).args, l2@.lit(arena).args),
        },
{
    let mut subst = Substitution::new();
    let ghost ss = l1@.lit(arena).args;
    let ghost ts = l2@.lit(arena).args;
    proof {
        no_bindings_are_acyclic();
        assert(tree_map(subst@, arena) =~= Map::<VarId, Tree>::empty());
        if ss.len() == ts.len() {
            unify_lists_is_most_general(Map::empty(), ss, ts);
        }
    }
    if unify_literals(l1, l2, arena, &mut subst) {
        proof {
            let b = tree_map(subst@, arena);
            crate::bindings::lemma_closure_solves(b);
            assert(solves(b, closure(b)));
        }
        Some(subst)
    } else {
        proof {
            if unifiable(ss, ts) {
                let tau = choose|tau: Assignment| #[trigger] agree_from(ss, ts, 0, tau);
                assert(solves(Map::<VarId, Tree>::empty(), tau));
            }
        }
        None
    }
}

/// The resolvent upon one pair of literals, `Some(None)` where there is none,
/// or `None` where the arena has no room for it.
fn resolve_pair(
    id1: u32,
    lits1: &Vec<Literal>,
    i: usize,
    id2: u32,
    lits2: &Vec<Literal>,
    j: usize,
    arena: &mut TermArena,
) -> (r: Option<Option<InferenceResult>>)
    requires
        old(arena).wf(),
        lits_valid(views(lits1@), old(arena)),
        lits_valid(views(lits2@), old(arena)),
        i < lits1@.len(),
        j < lits2@.len(),
    ensures
        final(arena).wf(),
        final(arena).extends(old(arena)),
        ({
            let d1 = lits(views(lits1@), old(arena));
            let d2 = lits(views(lits2@), old(arena));
            let goal = after_pair(old(arena).forest(), d1, d2, i as int, j as int);
            &&& final(arena).forest().is_prefix_of(goal)
            &&& r is Some ==> final(arena).forest() == goal
            &&& match r {
                None => !numbered(goal),
                Some(None) => !resolvable(d1[i as int], d2[j as int]),
                Some(Some(res)) => {
                    &&& resolution_entry(id1, id2, d1, d2, final(arena), views(res.0@), res.1@)
                    &&& pair_of(res.1@.rule) == (i as int, j as int)
                },
            }
        }),
{
    let ghost d1 = lits(views(lits1@), old(arena));
    let ghost d2 = lits(views(lits2@), old(arena));
    let ghost f0 = arena.forest();
    assert(f0 =~= f0.subrange(0, f0.len() as int));
    let l1 = &lits1[i];
    let l2 = &lits2[j];
    if l1.polarity == l2.polarity || l1.predicate != l2.predicate {
        return Some(None);
    }
    proof {
        assert(views(lits1@)[i as int].valid(old(arena)));
        assert(views(lits2@)[j as int].valid(old(arena)));
    }
    let subst = match unify_pair(l1, l2, arena) {
        Some(s) => s,
        None => {
            return Some(None);
        },
    };
    let ghost b = tree_map(subst@, old(arena));
    let ghost first_lits = inst_lits(d1.remove(i as int), closure(b));
    let ghost last_lits = inst_lits(d2.remove(j as int), closure(b));
    let ghost half = plant_lits(f0, first_lits, first_lits.len());
    let ghost goal = after_pair(f0, d1, d2, i as int, j as int);
    proof {
        assert(b == unified(d1[i as int], d2[j as int]));
        assert(resolvable(d1[i as int], d2[j as int]));
        assert(resolvent(d1, d2, i as int, j as int) =~= first_lits + last_lits);
        lemma_plant_lits_concat(f0, first_lits, last_lits, last_lits.len());
        lemma_plant_lits_prefix(half, last_lits, 0, last_lits.len());
        assert(goal == plant_lits(half, last_lits, last_lits.len()));
    }
    let mut out: Vec<Literal> = Vec::new();
    let ghost arena0 = *arena;
    if !push_applied(lits1.as_slice(), i, &subst, arena, &mut out) {
        proof {
            lemma_prefix_trans(arena.forest(), half, goal);
            if numbered(goal) {
                lemma_numbered_prefix(half, goal);
            }
        }
        return None;
    }
    let ghost first = views(out@);
    let ghost arena1 = *arena;
    proof {
        lemma_lits_extends(views(lits2@), &arena0, &arena1);
        lemma_tree_map_extends(subst@, &arena0, &arena1);
    }
    if !push_applied(lits2.as_slice(), j, &subst, arena, &mut out) {
        return None;
    }
    proof {
        lemma_tree_map_extends(subst@, &arena0, arena);
        let rest1 = d1.remove(i as int);
        let rest2 = d2.remove(j as int);
        assert(views(out@).len() == views(out@).len());
        assert(lits(views(out@), arena) =~= inst_lits(rest1 + rest2, closure(b)));
    }
    let mut parents: Vec<u32> = Vec::new();
    parents.push(id1);
    parents.push(id2);
    let info = InferenceInfo::from_rule(
        InferenceRule::Resolution {
            left: id1,
            left_lit: i,
            right: id2,
            right_lit: j,
            unifier: subst,
        },
        parents,
    );
    assert(info@.parents =~= seq![id1, id2]);
    Some(Some((out, info)))
}

/// The factor at one pair of literals, `Some(None)` where there is none, or
/// `None` where the arena has no room for it.
fn factor_pair(
    id: u32,
    literals: &Vec<Literal>,
    i: usize,
    j: usize,
    arena: &mut TermArena,
) -> (r: Option<Option<InferenceResult>>)
    requires
        old(arena).wf(),
        lits_valid(views(literals@), old(arena)),
        i < j < literals@.len(),
    ensures
        final(arena).wf(),
        final(arena).extends(old(arena)),
        ({
            let d = lits(views(literals@), old(arena));
            let goal = after_merge(old(arena).forest(), d, i as int, j as int);
            &&& final(arena).forest().is_prefix_of(goal)
            &&& r is Some ==> final(arena).forest() == goal
            &&& match r {
                None => !numbered(goal),
                Some(None) => !mergeable(d[i as int], d[j as int]),
                Some(Some(res)) => {
                    &&& factoring_entry(id, d, final(arena), views(res.0@), res.1@)
                    &&& pair_of(res.1@.rule) == (i as int, j as int)
                },
            }
        }),
{
    let ghost d = lits(views(literals@), old(arena));
    let ghost f0 = arena.forest();
    assert(f0 =~= f0.subrange(0, f0.len() as int));
    let l1 = &literals[i];
    let l2 = &literals[j];
    if l1.polarity != l2.polarity || l1.predicate != l2.predicate {
        return Some(None);
    }
    proof {
        assert(views(literals@)[i as int].valid(old(arena)));
        assert(views(literals@)[j as int].valid(old(arena)));
    }
    let subst = match unify_pair(l1, l2, arena) {
        Some(s) => s,
        None => {
            return Some(None);
        },
    };
    let ghost b = tree_map(subst@, old(arena));
    proof {
        assert(b == unified(d[i as int], d[j as int]));
        assert(mergeable(d[i as int], d[j as int]));
    }
    let mut out: Vec<Literal> = Vec::new();
    let ghost arena0 = *arena;
    if !push_applied(literals.as_slice(), j, &subst, arena, &mut out) {
        return None;
    }
    proof {
        lemma_tree_map_extends(subst@, &arena0, arena);
        assert(lits(views(out@), arena) =~= inst_lits(d.remove(j as int), closure(b)));
    }
    let mut parents: Vec<u32> = Vec::new();
    parents.push(id);
    let info = InferenceInfo::from_rule(
        InferenceRule::Factoring { parent: id, lit_a: i, lit_b: j, unifier: subst },
        parents,
    );
    assert(info@.parents =~= seq![id]);
    Some(Some((out, info)))
}

/// The positions before `p` that matter have been dealt with.
spec fn done_before(results: Seq<InferenceResult>, p: (int, int)) -> bool {
    forall|k: int|
        0 <= k < results.len() ==> pair_before(pair_of((#[trigger] results[k]).1@.rule), p)
}

proof fn lemma_push_result(results: Seq<InferenceResult>, r: InferenceResult, p: (int, int))
    requires
        in_order(results),
        done_before(results, p),
        pair_of(r.1@.rule) == p,
    ensures
        in_order(results.push(r)),
        done_before(results.push(r), (p.0, p.1 + 1)),
        found(results.push(r), p),
        forall|q: (int, int)| found(results, q) ==> #[trigger] found(results.push(r), q),
{
    let after = results.push(r);
    assert(pair_of(after[results.len() as int].1@.rule) == p);
    assert forall|q: (int, int)| found(results, q) implies #[trigger] found(after, q) by {
        let k = choose|k: int|
            0 <= k < results.len() && pair_of((#[trigger] results[k]).1@.rule) == q;
        assert(after[k] == results[k]);
        assert(pair_of(after[k].1@.rule) == q);
    }
    assert forall|k: int| 0 <= k < after.len() implies pair_before(
        pair_of((#[trigger] after[k]).1@.rule),
        (p.0, p.1 + 1),
    ) by {
        if k < results.len() {
            assert(after[k] == results[k]);
        }
    }
    assert forall|k: int, l: int| 0 <= k < l < after.len() implies pair_before(
        pair_of((#[trigger] after[k]).1@.rule),
        pair_of((#[trigger] after[l]).1@.rule),
    ) by {
        assert(after[k] == results[k]);
        if l < results.len() {
            assert(after[l] == results[l]);
        }
    }
}

/// The results are the resolvents of two clauses, renamed apart: all of them,
/// in order, where 32-bit numbers suffice for that, else some of them. Nothing
/// else is used.
pub open spec fn resolved_all(
    id1: u32,
    id2: u32,
    ls1: Seq<Lit>,
    ls2: Seq<Lit>,
    before: Stock,
    after: Stock,
    arena: &TermArena,
    results: Seq<InferenceResult>,
    all: bool,
) -> bool {
    let goal = after_resolving(before, ls1, ls2);
    let mid = after_renaming(before, ls1).next;
    let d1 = renamed(ls1, before.next);
    let d2 = renamed(ls2, mid);
    &&& all == goal.in_range()
    &&& used_up_to(before, after, goal)
    &&& resolvents(id1, id2, d1, d2, arena, results, all)
    &&& all ==> after == goal && renamed_apart(ls1, d1, before.next, mid) && renamed_apart(
        ls2,
        d2,
        mid,
        after.next,
    )
}

/// The results are the factors of a clause: all of them, in order, where
/// 32-bit numbers suffice for that, else some of them. Nothing else is used.
pub open spec fn factored_all(
    id: u32,
    d: Seq<Lit>,
    before: Forest,
    after: Forest,
    arena: &TermArena,
    results: Seq<InferenceResult>,
    all: bool,
) -> bool {
    let goal = after_factors(before, d, d.len());
    &&& all == numbered(goal)
    &&& after.is_prefix_of(goal)
    &&& factors(id, d, arena, results, all)
    &&& all ==> after == goal
}

/// Every resolvent of two clauses, and whether variables and terms sufficed
/// for all of them.
pub(crate) fn try_resolve(
    c1: &Clause,
    c2: &Clause,
    var_gen: &mut VarGen,
    arena: &mut TermArena,
) -> (r: (Vec<InferenceResult>, bool))
    requires
        old(arena).wf(),
        lits_valid(c1@.literals, old(arena)),
        lits_valid(c2@.literals, old(arena)),
    ensures
        final(arena).wf(),
        final(arena).extends(old(arena)),
        resolved_all(
            c1@.id,
            c2@.id,
            lits(c1@.literals, old(arena)),
            lits(c2@.literals, old(arena)),
            stock(old(arena), old(var_gen)),
            stock(final(arena), final(var_gen)),
            final(arena),
            r.0@,
            r.1,
        ),
{
    let ghost ls1 = lits(c1@.literals, old(arena));
    let ghost ls2 = lits(c2@.literals, old(arena));
    let ghost s0 = stock(arena, var_gen);
    let ghost s1 = after_renaming(s0, ls1);
    let ghost s2 = after_renaming(s1, ls2);
    let ghost goal = after_resolving(s0, ls1, ls2);
    let mut results: Vec<InferenceResult> = Vec::new();
    proof {
        lemma_resolving_steps(s0, ls1, ls2);
    }
    let lits1 = match try_rename_apart(c1.literals.as_slice(), var_gen, arena) {
        Some(l) => l,
        None => {
            proof {
                lemma_prefix_trans(arena.forest(), s1.forest, goal.forest);
                if numbered(goal.forest) {
                    lemma_numbered_prefix(s1.forest, goal.forest);
                }
            }
            return (results, false);
        },
    };
    let ghost mid = var_gen.next() as int;
    let ghost arena1 = *arena;
    proof {
        lemma_lits_extends(c2@.literals, old(arena), &arena1);
    }
    let lits2 = match try_rename_apart(c2.literals.as_slice(), var_gen, arena) {
        Some(l) => l,
        None => {
            proof {
                lemma_prefix_trans(arena.forest(), s2.forest, goal.forest);
                if numbered(goal.forest) {
                    lemma_numbered_prefix(s2.forest, goal.forest);
                }
            }
            return (results, false);
        },
    };
    let ghost d1 = lits(views(lits1@), arena);
    let ghost d2 = lits(views(lits2@), arena);
    proof {
        lemma_lits_extends(views(lits1@), &arena1, arena);
        assert(renamed_apart(ls1, d1, old(var_gen).next() as int, mid));
        assert(arena.extends(old(arena)));
        assert(d1.len() == ls1.len());
    }
    let ghost f2 = arena.forest();
    let mut i: usize = 0;
    while i < lits1.len()
        invariant
            old(arena).wf(),
            arena.wf(),
            arena.extends(old(arena)),
            ls1 == lits(c1@.literals, old(arena)),
            ls2 == lits(c2@.literals, old(arena)),
            s0 == stock(old(arena), old(var_gen)),
            goal == after_resolving(s0, ls1, ls2),
            d1 == renamed(ls1, s0.next),
            d2 == renamed(ls2, mid),
            mid == after_renaming(s0, ls1).next,
            s0.next <= var_gen.next() == goal.next,
            renamed_apart(ls1, d1, s0.next, mid),
            renamed_apart(ls2, d2, mid, goal.next),
            goal.forest == after_rows(f2, d1, d2, d1.len()),
            d1.len() == ls1.len(),
            arena.forest() == after_rows(f2, d1, d2, i as nat),
            lits_valid(views(lits1@), arena),
            lits_valid(views(lits2@), arena),
            d1 == lits(views(lits1@), arena),
            d2 == lits(views(lits2@), arena),
            i <= lits1@.len(),
            resolvents(c1@.id, c2@.id, d1, d2, arena, results@, false),
            done_before(results@, (i as int, 0)),
            forall|x: int, y: int|
                0 <= x < i && 0 <= y < d2.len() && resolvable(
                    #[trigger] d1[x],
                    #[trigger] d2[y],
                ) ==> found(results@, (x, y)),
        decreases lits1@.len() - i,
    {
        let mut j: usize = 0;
        while j < lits2.len()
            invariant
                old(arena).wf(),
                arena.wf(),
                arena.extends(old(arena)),
                ls1 == lits(c1@.literals, old(arena)),
                ls2 == lits(c2@.literals, old(arena)),
                s0 == stock(old(arena), old(var_gen)),
                goal == after_resolving(s0, ls1, ls2),
                d1 == renamed(ls1, s0.next),
                d2 == renamed(ls2, mid),
                mid == after_renaming(s0, ls1).next,
                s0.next <= var_gen.next() == goal.next,
                renamed_apart(ls1, d1, s0.next, mid),
                renamed_apart(ls2, d2, mid, goal.next),
                goal.forest == after_rows(f2, d1, d2, d1.len()),
                d1.len() == ls1.len(),
                arena.forest() == after_row(
                    after_rows(f2, d1, d2, i as nat),
                    d1,
                    d2,
                    i as int,
                    j as nat,
                ),
                lits_valid(views(lits1@), arena),
                lits_valid(views(lits2@), arena),
                d1 == lits(views(lits1@), arena),
                d2 == lits(views(lits2@), arena),
                i < lits1@.len(),
                j <= lits2@.len(),
                resolvents(c1@.id, c2@.id, d1, d2, arena, results@, false),
                done_before(results@, (i as int, j as int)),
                forall|x: int, y: int|
                    0 <= x < d1.len() && 0 <= y < d2.len() && pair_before(
                        (x, y),
                        (i as int, j as int),
                    ) && resolvable(#[trigger] d1[x], #[trigger] d2[y]) ==> found(
                        results@,
                        (x, y),
                    ),
            decreases lits2@.len() - j,
        {
            let ghost before = *arena;
            let ghost had = results@;
            let step = resolve_pair(c1.id, &lits1, i, c2.id, &lits2, j, arena);
            proof {
                lemma_lits_extends(views(lits1@), &before, arena);
                lemma_lits_extends(views(lits2@), &before, arena);
                assert(arena.extends(old(arena)));
                assert forall|k: int| 0 <= k < had.len() implies resolution_entry(
                    c1@.id,
                    c2@.id,
                    d1,
                    d2,
                    arena,
                    views((#[trigger] had[k]).0@),
                    had[k].1@,
                ) by {
                    lemma_resolution_entry_extends(
                        c1@.id,
                        c2@.id,
                        d1,
                        d2,
                        &before,
                        arena,
                        views(had[k].0@),
                        had[k].1@,
                    );
                }
            }
            match step {
                None => {
                    proof {
                        let row = after_rows(f2, d1, d2, i as nat);
                        let next = after_row(row, d1, d2, i as int, (j + 1) as nat);
                        lemma_after_row(row, d1, d2, i as int, (j + 1) as nat, d2.len());
                        lemma_after_rows(f2, d1, d2, (i + 1) as nat, d1.len());
                        lemma_prefix_trans(
                            next,
                            after_rows(f2, d1, d2, (i + 1) as nat),
                            goal.forest,
                        );
                        lemma_prefix_trans(arena.forest(), next, goal.forest);
                        if numbered(goal.forest) {
                            lemma_numbered_prefix(next, goal.forest);
                        }
                    }
                    return (results, false);
                },
                Some(None) => {
                    assert(done_before(results@, (i as int, j + 1)));
                },
                Some(Some(res)) => {
                    proof {
                        lemma_push_result(had, res, (i as int, j as int));
                    }
                    results.push(res);
                },
            }
            proof {
                assert forall|x: int, y: int|
                    0 <= x < d1.len() && 0 <= y < d2.len() && pair_before(
                        (x, y),
                        (i as int, j + 1),
                    ) && resolvable(#[trigger] d1[x], #[trigger] d2[y]) implies found(
                    results@,
                    (x, y),
                ) by {
                    if x == i && y == j {
                        assert(found(results@, (i as int, j as int)));
                    } else {
                        assert(found(had, (x, y)));
                    }
                }
            }
            j += 1;
        }
        assert(done_before(results@, (i + 1, 0)));
        i += 1;
    }
    proof {
        arena.lemma_forest();
        lemma_after_rows(f2, d1, d2, d1.len(), d1.len());
    }
    (results, true)
}

/// Every resolvent of two clauses: for each pair of literals, one from each
/// clause, that have opposite polarity, the same predicate and, after renaming
/// the clauses apart, unifiable arguments. Where variables or terms run out,
/// the results so far.
pub fn resolve(
    c1: &Clause,
    c2: &Clause,
    var_gen: &mut VarGen,
    arena: &mut TermArena,
) -> (r: Vec<InferenceResult>)
    requires
        old(arena).wf(),
        lits_valid(c1@.literals, old(arena)),
        lits_valid(c2@.literals, old(arena)),
    ensures
        final(arena).wf(),
        final(arena).extends(old(arena)),
        resolved_all(
            c1@.id,
            c2@.id,
            lits(c1@.literals, old(arena)),
            lits(c2@.literals, old(arena)),
            stock(old(arena), old(var_gen)),
            stock(final(arena), final(var_gen)),
            final(arena),
            r@,
            after_resolving(
                stock(old(arena), old(var_gen)),
                lits(c1@.literals, old(arena)),
                lits(c2@.literals, old(arena)),
            ).in_range(),
        ),
{
    try_resolve(c1, c2, var_gen, arena).0
}

/// Every factor of a clause, and whether terms sufficed for all of them.
pub(crate) fn try_factor(c: &Clause, arena: &mut TermArena) -> (r: (Vec<InferenceResult>, bool))
    requires
        old(arena).wf(),
        lits_valid(c@.literals, old(arena)),
    ensures
        final(arena).wf(),
        final(arena).extends(old(arena)),
        factored_all(
            c@.id,
            lits(c@.literals, old(arena)),
            old(arena).forest(),
            final(arena).forest(),
            final(arena),
            r.0@,
            r.1,
        ),
{
    let literals = &c.literals;
    let ghost d = lits(c@.literals, arena);
    let ghost f0 = arena.forest();
    let ghost goal = after_factors(f0, d, d.len());
    let mut results: Vec<InferenceResult> = Vec::new();
    let mut i: usize = 0;
    while i < literals.len()
        invariant
            old(arena).wf(),
            arena.wf(),
            arena.extends(old(arena)),
            c@.literals == views(literals@),
            lits_valid(views(literals@), arena),
            d == lits(views(literals@), arena),
            d == lits(c@.literals, old(arena)),
            i <= literals@.len(),
            f0 == old(arena).forest(),
            goal == after_factors(f0, d, d.len()),
            arena.forest() == after_factors(f0, d, i as nat),
            factors(c@.id, d, arena, results@, false),
            done_before(results@, (i as int, 0)),
            forall|x: int, y: int|
                0 <= x < y < d.len() && x < i && mergeable(#[trigger] d[x], #[trigger] d[y])
                    ==> found(results@, (x, y)),
        decreases literals@.len() - i,
    {
        let mut j: usize = i + 1;
        assert(done_before(results@, (i as int, i + 1)));
        proof {
            lemma_after_merges(after_factors(f0, d, i as nat), d, i as int, 0, (i + 1) as nat);
        }
        while j < literals.len()
            invariant
                old(arena).wf(),
                arena.wf(),
                arena.extends(old(arena)),
                c@.literals == views(literals@),
                lits_valid(views(literals@), arena),
                d == lits(views(literals@), arena),
                d == lits(c@.literals, old(arena)),
                i < literals@.len(),
                i < j <= literals@.len(),
                f0 == old(arena).forest(),
                goal == after_factors(f0, d, d.len()),
                arena.forest() == after_merges(
                    after_factors(f0, d, i as nat),
                    d,
                    i as int,
                    j as nat,
                ),
                factors(c@.id, d, arena, results@, false),
                done_before(results@, (i as int, j as int)),
                forall|x: int, y: int|
                    0 <= x < y < d.len() && pair_before((x, y), (i as int, j as int)) && mergeable(
                        #[trigger] d[x],
                        #[trigger] d[y],
                    ) ==> found(results@, (x, y)),
            decreases literals@.len() - j,
        {
            let ghost before = *arena;
            let ghost had = results@;
            let step = factor_pair(c.id, literals, i, j, arena);
            proof {
                lemma_lits_extends(views(literals@), &before, arena);
                assert(arena.extends(old(arena)));
                assert forall|k: int| 0 <= k < had.len() implies factoring_entry(
                    c@.id,
                    d,
                    arena,
                    views((#[trigger] had[k]).0@),
                    had[k].1@,
                ) by {
                    lemma_factoring_entry_extends(
                        c@.id,
                        d,
                        &before,
                        arena,
                        views(had[k].0@),
                        had[k].1@,
                    );
                }
            }
            match step {
                None => {
                    proof {
                        let row = after_factors(f0, d, i as nat);
                        let next = after_merges(row, d, i as int, (j + 1) as nat);
                        lemma_after_merges(row, d, i as int, (j + 1) as nat, d.len());
                        lemma_after_factors(f0, d, (i + 1) as nat, d.len());
                        lemma_prefix_trans(next, after_factors(f0, d, (i + 1) as nat), goal);
                        lemma_prefix_trans(arena.forest(), next, goal);
                        if numbered(goal) {
                            lemma_numbered_prefix(next, goal);
                        }
                    }
                    return (results, false);
                },
                Some(None) => {
                    assert(done_before(results@, (i as int, j + 1)));
                },
                Some(Some(res)) => {
                    proof {
                        lemma_push_result(had, res, (i as int, j as int));
                    }
                    results.push(res);
                },
            }
            proof {
                assert forall|x: int, y: int|
                    0 <= x < y < d.len() && pair_before((x, y), (i as int, j + 1)) && mergeable(
                        #[trigger] d[x],
                        #[trigger] d[y],
                    ) implies found(results@, (x, y)) by {
                    if x == i && y == j {
                        assert(found(results@, (i as int, j as int)));
                    } else {
                        assert(found(had, (x, y)));
                    }
                }
            }
            j += 1;
        }
        assert(done_before(results@, (i + 1, 0)));
        i += 1;
    }
    proof {
        arena.lemma_forest();
        lemma_after_factors(f0, d, d.len(), d.len());
    }
    (results, true)
}

/// Every factor of a clause: for each pair of its literals that have the same
/// polarity, the same predicate and unifiable arguments. Where terms run out,
/// the results so far.
pub fn factor(c: &Clause, arena: &mut TermArena) -> (r: Vec<InferenceResult>)
    requires
        old(arena).wf(),
        lits_valid(c@.literals, old(arena)),
    ensures
        final(arena).wf(),
        final(arena).extends(old(arena)),
        factored_all(
            c@.id,
            lits(c@.literals, old(arena)),
            old(arena).forest(),
            final(arena).forest(),
            final(arena),
            r@,
            numbered(
                after_factors(
                    old(arena).forest(),
                    lits(c@.literals, old(arena)),
                    c@.literals.len(),
                ),
            ),
        ),
{
    try_factor(c, arena).0
}

// ---------------------------------------------------------------------------
// Laws.
// ---------------------------------------------------------------------------
/// A generator that passes `k` usable variables moves on by at least `k`.
pub proof fn skip_moves_on(avoid: Set<VarId>, next: int, k: nat)
    requires
        0 <= next <= u32::MAX,
    ensures
        skip(avoid, next, k) >= next + k || skip(avoid, next, k) > u32::MAX,
    decreases u32::MAX - next,
{
    if k > 0 && next < u32::MAX {
        if avoid.contains(next as VarId) {
            skip_moves_on(avoid, next + 1, k);
        } else {
            skip_moves_on(avoid, next + 1, (k - 1) as nat);
        }
    }
}

/// The variables of an instance of literals.
pub proof fn lemma_inst_lits_have_var(ls: Seq<Lit>, tau: Assignment, v: VarId)
    ensures
        lits_have_var(inst_lits(ls, tau), v) <==> exists|w: VarId| #[trigger]
            lits_have_var(ls, w) && tau(w).has_var(v),
{
    let insts = inst_lits(ls, tau);
    if lits_have_var(insts, v) {
        let i = choose|i: int| 0 <= i < insts.len() && (#[trigger] insts[i]).has_var(v);
        let args = inst_all(ls[i].args, tau);
        assert(insts[i].args == args);
        let k = choose|k: int| 0 <= k < args.len() && (#[trigger] args[k]).has_var(v);
        lemma_inst_has_var(ls[i].args[k], tau, v);
        let w = choose|w: VarId| #[trigger] ls[i].args[k].has_var(w) && tau(w).has_var(v);
        assert(ls[i].has_var(w));
        assert(lits_have_var(ls, w));
    }
    if exists|w: VarId| #[trigger] lits_have_var(ls, w) && tau(w).has_var(v) {
        let w = choose|w: VarId| #[trigger] lits_have_var(ls, w) && tau(w).has_var(v);
        let i = choose|i: int| 0 <= i < ls.len() && (#[trigger] ls[i]).has_var(w);
        let k = choose|k: int| 0 <= k < ls[i].args.len() && (#[trigger] ls[i].args[k]).has_var(w);
        lemma_inst_has_var(ls[i].args[k], tau, v);
        assert(inst_all(ls[i].args, tau)[k].has_var(v));
        assert(insts[i].has_var(v));
    }
}

/// A renamed clause has only variables that the generator handed out for it,
/// and none of its own from before.
pub proof fn renamed_variables_are_new(ls: Seq<Lit>, d: Seq<Lit>, lo: int, hi: int, v: VarId)
    requires
        renamed_apart(ls, d, lo, hi),
        lits_have_var(d, v),
    ensures
        lo <= v < hi,
        !lits_have_var(ls, v),
{
    let r = choose|r: Map<VarId, VarId>| #[trigger]
        is_renaming(r, vars_of(ls)) && within(r, lo, hi) && d == inst_lits(ls, ren(r));
    lemma_inst_lits_have_var(ls, ren(r), v);
    let w = choose|w: VarId| #[trigger] lits_have_var(ls, w) && ren(r)(w).has_var(v);
    assert(vars_of(ls).contains(w));
    assert(r.contains_key(w));
}

/// Clauses that are renamed one after the other with the same generator share
/// no variable.
pub proof fn renamed_clauses_share_no_variable(
    ls1: Seq<Lit>,
    ls2: Seq<Lit>,
    d1: Seq<Lit>,
    d2: Seq<Lit>,
    lo: int,
    hi: int,
    v: VarId,
)
    requires
        both_renamed(ls1, ls2, d1, d2, lo, hi),
    ensures
        !(lits_have_var(d1, v) && lits_have_var(d2, v)),
{
    let mid = choose|mid: int| #[trigger]
        renamed_apart(ls1, d1, lo, mid) && renamed_apart(ls2, d2, mid, hi);
    if lits_have_var(d1, v) && lits_have_var(d2, v) {
        renamed_variables_are_new(ls1, d1, lo, mid, v);
        renamed_variables_are_new(ls2, d2, mid, hi, v);
    }
}

/// Whether two literals have opposite signs and a common instance, each under
/// an assignment of its own.
pub open spec fn clash(l1: Lit, l2: Lit) -> bool {
    &&& l1.positive != l2.positive
    &&& l1.predicate == l2.predicate
    &&& exists|tau1: Assignment, tau2: Assignment| #[trigger]
        inst_all(l1.args, tau1) == #[trigger] inst_all(l2.args, tau2)
}

pub(crate) proof fn lemma_lit_compose(l: Lit, tau: Assignment, rho: Assignment)
    ensures
        l.inst(tau).inst(rho) == l.inst(|v: VarId| tau(v).inst(rho)),
{
    let both = |v: VarId| tau(v).inst(rho);
    assert forall|i: int| 0 <= i < l.args.len() implies (#[trigger] l.args[i]).inst(tau).inst(rho)
        == l.args[i].inst(both) by {
        lemma_inst_compose(l.args[i], tau, rho);
    }
    assert(inst_all(inst_all(l.args, tau), rho) =~= inst_all(l.args, both));
}

pub(crate) open spec fn origin(r: Map<VarId, VarId>, x: VarId) -> VarId {
    choose|v: VarId| r.contains_key(v) && #[trigger] r[v] == x
}

pub(crate) open spec fn glue(
    r1: Map<VarId, VarId>,
    tau1: Assignment,
    r2: Map<VarId, VarId>,
    tau2: Assignment,
    mid: int,
) -> Assignment {
    |x: VarId|
        if x < mid {
            tau1(origin(r1, x))
        } else {
            tau2(origin(r2, x))
        }
}

/// Renaming apart loses no inference: two literals of renamed clauses can be
/// resolved upon exactly where the original literals have opposite signs and
/// a common instance.
pub proof fn renaming_keeps_clashes(
    ls1: Seq<Lit>,
    ls2: Seq<Lit>,
    d1: Seq<Lit>,
    d2: Seq<Lit>,
    lo: int,
    hi: int,
    i: int,
    j: int,
)
    requires
        both_renamed(ls1, ls2, d1, d2, lo, hi),
        0 <= i < ls1.len(),
        0 <= j < ls2.len(),
    ensures
        d1.len() == ls1.len(),
        d2.len() == ls2.len(),
        resolvable(d1[i], d2[j]) <==> clash(ls1[i], ls2[j]),
{
    let mid = choose|mid: int| #[trigger]
        renamed_apart(ls1, d1, lo, mid) && renamed_apart(ls2, d2, mid, hi);
    let r1 = choose|r: Map<VarId, VarId>| #[trigger]
        is_renaming(r, vars_of(ls1)) && within(r, lo, mid) && d1 == inst_lits(ls1, ren(r));
    let r2 = choose|r: Map<VarId, VarId>| #[trigger]
        is_renaming(r, vars_of(ls2)) && within(r, mid, hi) && d2 == inst_lits(ls2, ren(r));
    let l1 = ls1[i];
    let l2 = ls2[j];
    assert(d1[i] == l1.inst(ren(r1)));
    assert(d2[j] == l2.inst(ren(r2)));
    if resolvable(d1[i], d2[j]) {
        let tau = choose|tau: Assignment| #[trigger] agree_from(d1[i].args, d2[j].args, 0, tau);
        lemma_lit_compose(l1, ren(r1), tau);
        lemma_lit_compose(l2, ren(r2), tau);
        let tau1 = |v: VarId| ren(r1)(v).inst(tau);
        let tau2 = |v: VarId| ren(r2)(v).inst(tau);
        assert(inst_all(d1[i].args, tau) =~= inst_all(d2[j].args, tau));
        assert(inst_all(l1.args, tau1) == inst_all(l2.args, tau2));
    }
    if clash(l1, l2) {
        let (tau1, tau2) = choose|tau1: Assignment, tau2: Assignment| #[trigger]
            inst_all(l1.args, tau1) == #[trigger] inst_all(l2.args, tau2);
        assert(inst_all(l1.args, tau1).len() == l1.args.len());
        assert(inst_all(l2.args, tau2).len() == l2.args.len());
        let tau = glue(r1, tau1, r2, tau2, mid);
        let both1 = |v: VarId| ren(r1)(v).inst(tau);
        let both2 = |v: VarId| ren(r2)(v).inst(tau);
        assert forall|v: VarId| l1.has_var(v) implies #[trigger] both1(v) == tau1(v) by {
            assert(lits_have_var(ls1, v));
            assert(vars_of(ls1).contains(v));
            assert(r1.contains_key(v));
            let w = origin(r1, r1[v]);
            assert(r1.contains_key(w) && r1[w] == r1[v]);
        }
        assert forall|v: VarId| l2.has_var(v) implies #[trigger] both2(v) == tau2(v) by {
            assert(lits_have_var(ls2, v));
            assert(vars_of(ls2).contains(v));
            assert(r2.contains_key(v));
            let w = origin(r2, r2[v]);
            assert(r2.contains_key(w) && r2[w] == r2[v]);
        }
        lemma_lit_compose(l1, ren(r1), tau);
        lemma_lit_compose(l2, ren(r2), tau);
        lemma_lit_inst_agree(l1, both1, tau1);
        lemma_lit_inst_agree(l2, both2, tau2);
        assert(inst_all(d1[i].args, tau) == inst_all(d2[j].args, tau));
        assert(agree_from(d1[i].args, d2[j].args, 0, tau)) by {
            assert forall|k: int| 0 <= k < d1[i].args.len() implies (
            #[trigger] d1[i].args[k]).inst(tau) == d2[j].args[k].inst(tau) by {
                assert(inst_all(d1[i].args, tau)[k] == inst_all(d2[j].args, tau)[k]);
            }
        }
    }
}

proof fn lemma_lits_identity(ls: Seq<Lit>, tau: Assignment)
    requires
        forall|v: VarId| lits_have_var(ls, v) ==> #[trigger] tau(v) == Tree::Var(v),
    ensures
        inst_lits(ls, tau) == ls,
{
    assert forall|i: int| 0 <= i < ls.len() implies (#[trigger] ls[i]).inst(tau) == ls[i] by {
        let args = ls[i].args;
        assert forall|k: int| 0 <= k < args.len() implies (#[trigger] args[k]).inst(tau)
            == args[k] by {
            assert forall|v: VarId| args[k].has_var(v) implies #[trigger] tau(v) == Tree::Var(
                v,
            ) by {
                assert(ls[i].has_var(v));
                assert(lits_have_var(ls, v));
            }
            lemma_inst_identity(args[k], tau);
        }
        assert(inst_all(args, tau) =~= args);
    }
    assert(inst_lits(ls, tau) =~= ls);
}

/// Renaming leaves a clause without variables as it is, and takes no variable
/// from the generator.
pub proof fn renaming_keeps_ground_clauses(ls: Seq<Lit>, d: Seq<Lit>, lo: int, hi: int)
    requires
        renamed_apart(ls, d, lo, hi),
        forall|v: VarId| !#[trigger] lits_have_var(ls, v),
    ensures
        d == ls,
        hi == lo,
{
    assert(vars_of(ls) =~= Set::empty());
    let r = choose|r: Map<VarId, VarId>| #[trigger]
        is_renaming(r, vars_of(ls)) && within(r, lo, hi) && d == inst_lits(ls, ren(r));
    lemma_lits_identity(ls, ren(r));
}

/// Renaming loses nothing: some assignment turns the renamed clause back.
pub proof fn renaming_can_be_undone(ls: Seq<Lit>, d: Seq<Lit>, lo: int, hi: int) -> (
    back: Assignment)
    requires
        renamed_apart(ls, d, lo, hi),
    ensures
        inst_lits(d, back) == ls,
{
    let r = choose|r: Map<VarId, VarId>| #[trigger]
        is_renaming(r, vars_of(ls)) && within(r, lo, hi) && d == inst_lits(ls, ren(r));
    let back = |x: VarId| Tree::Var(origin(r, x));
    let both = |v: VarId| ren(r)(v).inst(back);
    assert forall|v: VarId| lits_have_var(ls, v) implies #[trigger] both(v) == Tree::Var(v) by {
        assert(vars_of(ls).contains(v));
        assert(r.contains_key(v));
        let w = origin(r, r[v]);
        assert(r.contains_key(w) && r[w] == r[v]);
    }
    lemma_lits_identity(ls, both);
    assert forall|i: int| 0 <= i < ls.len() implies (#[trigger] ls[i]).inst(ren(r)).inst(back)
        == ls[i].inst(both) by {
        lemma_lit_compose(ls[i], ren(r), back);
    }
    assert(inst_lits(d, back) =~= inst_lits(ls, both));
    back
}

/// Sum of the weights of the resolvents upon literal `i` of `d1` and the first
/// `j` literals of `d2`.
pub open spec fn row_weight(d1: Seq<Lit>, d2: Seq<Lit>, i: int, j: nat) -> nat
    decreases j,
{
    if j == 0 {
        0
    } else {
        let r = resolvent(d1, d2, i, j - 1);
        row_weight(d1, d2, i, (j - 1) as nat) + (if resolvable(d1[i], d2[j - 1]) {
            weights(r, r.len())
        } else {
            0
        })
    }
}

/// Sum of the weights of the resolvents upon the first `i` literals of `d1`.
pub open spec fn rows_weight(d1: Seq<Lit>, d2: Seq<Lit>, i: nat) -> nat
    decreases i,
{
    if i == 0 {
        0
    } else {
        rows_weight(d1, d2, (i - 1) as nat) + row_weight(d1, d2, i - 1, d2.len())
    }
}

/// Sum of the weights of the factors of `d` upon literal `i` and later ones
/// below `j`.
pub open spec fn merges_weight(d: Seq<Lit>, i: int, j: nat) -> nat
    decreases j,
{
    if j == 0 {
        0
    } else {
        let r = factor_at(d, i, j - 1);
        merges_weight(d, i, (j - 1) as nat) + (if i < j - 1 && mergeable(d[i], d[j - 1]) {
            weights(r, r.len())
        } else {
            0
        })
    }
}

/// Sum of the weights of the factors of `d` upon the first `i` literals and
/// later ones.
pub open spec fn factors_weight(d: Seq<Lit>, i: nat) -> nat
    decreases i,
{
    if i == 0 {
        0
    } else {
        factors_weight(d, (i - 1) as nat) + merges_weight(d, i - 1, d.len())
    }
}

/// Whether one forest has at most `n` more trees and arguments than the other.
pub open spec fn grown_by(f: Forest, g: Forest, n: nat) -> bool {
    g.len() <= f.len() + n && arities(g) <= arities(f) + n
}

/// Building literals takes at most as many numbers as they weigh.
pub proof fn planted_literals_grow_by_weight(f: Forest, ls: Seq<Lit>, k: nat)
    requires
        k <= ls.len(),
    ensures
        grown_by(f, plant_lits(f, ls, k), weights(ls, k)),
    decreases k,
{
    if k > 0 {
        planted_literals_grow_by_weight(f, ls, (k - 1) as nat);
        lemma_plant_list(
            plant_lits(f, ls, (k - 1) as nat),
            ls[k - 1].args,
            ls[k - 1].args.len(),
        );
    }
}

proof fn lemma_renamed_weights(ls: Seq<Lit>, next: int, k: nat)
    requires
        k <= ls.len(),
    ensures
        weights(renamed(ls, next), k) == weights(ls, k),
    decreases k,
{
    if k > 0 {
        lemma_renamed_weights(ls, next, (k - 1) as nat);
        lemma_rename_sizes(ls[k - 1].args, ls[k - 1].args.len(), renaming(ls, next));
    }
}

proof fn lemma_var_sizes(names: Seq<VarId>, k: nat)
    requires
        k <= names.len(),
    ensures
        sizes(var_trees(names), k) == k,
    decreases k,
{
    if k > 0 {
        lemma_var_sizes(names, (k - 1) as nat);
        assert(var_trees(names)[k - 1].size() == 1);
    }
}

/// Renaming a clause takes at most as many numbers as it has variables and
/// weighs.
pub proof fn renaming_grows_by_weight(s: Stock, ls: Seq<Lit>)
    ensures
        grown_by(
            s.forest,
            after_renaming(s, ls).forest,
            var_order(ls, ls.len()).len() + weights(ls, ls.len()),
        ),
{
    let names = fresh_names(ls, s.next);
    let trees = var_trees(names);
    lemma_var_sizes(names, names.len());
    lemma_plant_list(s.forest, trees, trees.len());
    let g = plant_list(s.forest, trees, trees.len());
    planted_literals_grow_by_weight(g, renamed(ls, s.next), ls.len());
    lemma_renamed_weights(ls, s.next, ls.len());
}

proof fn lemma_row_grows(f: Forest, d1: Seq<Lit>, d2: Seq<Lit>, i: int, j: nat)
    ensures
        grown_by(f, after_row(f, d1, d2, i, j), row_weight(d1, d2, i, j)),
    decreases j,
{
    if j > 0 {
        lemma_row_grows(f, d1, d2, i, (j - 1) as nat);
        let r = resolvent(d1, d2, i, j - 1);
        planted_literals_grow_by_weight(after_row(f, d1, d2, i, (j - 1) as nat), r, r.len());
    }
}

proof fn lemma_rows_grow(f: Forest, d1: Seq<Lit>, d2: Seq<Lit>, i: nat)
    ensures
        grown_by(f, after_rows(f, d1, d2, i), rows_weight(d1, d2, i)),
    decreases i,
{
    if i > 0 {
        lemma_rows_grow(f, d1, d2, (i - 1) as nat);
        lemma_row_grows(after_rows(f, d1, d2, (i - 1) as nat), d1, d2, i - 1, d2.len());
    }
}

proof fn lemma_merges_grow(f: Forest, d: Seq<Lit>, i: int, j: nat)
    ensures
        grown_by(f, after_merges(f, d, i, j), merges_weight(d, i, j)),
    decreases j,
{
    if j > 0 {
        lemma_merges_grow(f, d, i, (j - 1) as nat);
        let r = factor_at(d, i, j - 1);
        planted_literals_grow_by_weight(after_merges(f, d, i, (j - 1) as nat), r, r.len());
    }
}

/// Deriving all factors takes at most as many numbers as they weigh.
pub proof fn factoring_grows_by_weight(f: Forest, d: Seq<Lit>, i: nat)
    ensures
        grown_by(f, after_factors(f, d, i), factors_weight(d, i)),
    decreases i,
{
    if i > 0 {
        factoring_grows_by_weight(f, d, (i - 1) as nat);
        lemma_merges_grow(after_factors(f, d, (i - 1) as nat), d, i - 1, d.len());
    }
}

/// Deriving all resolvents takes at most as many numbers for terms as the two
/// clauses have variables and weigh, and the resolvents weigh.
pub proof fn resolving_grows_by_weight(s: Stock, ls1: Seq<Lit>, ls2: Seq<Lit>)
    ensures
        ({
            let d1 = renamed(ls1, s.next);
            let d2 = renamed(ls2, after_renaming(s, ls1).next);
            grown_by(
                s.forest,
                after_resolving(s, ls1, ls2).forest,
                var_order(ls1, ls1.len()).len() + weights(ls1, ls1.len()) + var_order(
                    ls2,
                    ls2.len(),
                ).len() + weights(ls2, ls2.len()) + rows_weight(d1, d2, ls1.len()),
            )
        }),
{
    let s1 = after_renaming(s, ls1);
    let s2 = after_renaming(s1, ls2);
    renaming_grows_by_weight(s, ls1);
    renaming_grows_by_weight(s1, ls2);
    lemma_rows_grow(s2.forest, renamed(ls1, s.next), renamed(ls2, s1.next), ls1.len());
}

} // verus!
