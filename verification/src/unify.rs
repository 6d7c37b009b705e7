//! Substitutions and unification of arena terms.
//!
//! Unification only reads the arena and fills a [`Substitution`]; applying a
//! substitution builds new terms.
use crate::bindings::{
    acyclic, bind_checked, closure, expand, expands, full, lemma_closure_solves,
    lemma_full, lemma_full_acyclic, lemma_full_inst, lemma_root_root, lemma_solution_factors,
    lemma_unchecked, lemma_unify, lemma_unify_from, lemma_unify_lists_outcome, lemma_unify_outcome,
    lemma_unseen_shrinks, most_general, most_general_from, occ, occ_from, root, solves, uni,
    uni_from, unify_halts, unify_lists_halts, unify_lists_outcome, unify_outcome, walk, Bindings,
};
use crate::clause::Literal;
use crate::forest::{
    lemma_numbered_prefix, lemma_plant_list_prefix, lemma_prefix_trans, lemma_with_tree, numbered,
    plant, plant_list, planting_a_known_tree_changes_nothing, planting_grows_by_size, with_tree,
};
use crate::term::{Node, TermArena, TermData, TermId, VarId};
use crate::text::{ascending, insert_sorted, lemma_listed};
use crate::tree::{Assignment, Tree};
use std::collections::{HashMap, HashSet};
use vstd::prelude::*;
use vstd::std_specs::iter::IteratorSpec;

verus! {

broadcast use vstd::std_specs::hash::group_hash_axioms;

/// A map from variables to terms. A bound variable may occur in other
/// bindings: bindings are followed when they are read.
#[derive(Debug, PartialEq, Eq)]
pub struct Substitution {
    bindings: HashMap<VarId, TermId>,
}

impl View for Substitution {
    type V = Map<VarId, TermId>;

    closed spec fn view(&self) -> Map<VarId, TermId> {
        self.bindings@
    }
}

impl Clone for Substitution {
    fn clone(&self) -> (r: Self)
        ensures
            r@ == self@,
    {
        Substitution { bindings: self.bindings.clone() }
    }
}

/// Whether every binding is a term of the arena.
pub open spec fn bound_valid(m: Map<VarId, TermId>, arena: &TermArena) -> bool {
    forall|v: VarId| #[trigger] m.contains_key(v) ==> arena.valid(m[v])
}

/// The bindings as trees.
pub open spec fn tree_map(m: Map<VarId, TermId>, arena: &TermArena) -> Bindings {
    m.map_values(|t: TermId| arena.tree(t))
}

/// The pairs list the map in strictly ascending order of the variables.
pub open spec fn lists(m: Map<VarId, TermId>, pairs: Seq<(VarId, TermId)>) -> bool {
    &&& forall|i: int, j: int| 0 <= i < j < pairs.len() ==> pairs[i].0 < pairs[j].0
    &&& forall|i: int|
        0 <= i < pairs.len() ==> m.contains_key((#[trigger] pairs[i]).0) && m[pairs[i].0]
            == pairs[i].1
    &&& forall|v: VarId| #[trigger]
        m.contains_key(v) ==> exists|i: int| 0 <= i < pairs.len() && (#[trigger] pairs[i]).0 == v
}

/// Bindings keep their trees when the arena grows.
pub proof fn lemma_tree_map_extends(
    m: Map<VarId, TermId>,
    older: &TermArena,
    newer: &TermArena,
)
    requires
        older.wf(),
        newer.extends(older),
        bound_valid(m, older),
    ensures
        bound_valid(m, newer),
        tree_map(m, newer) == tree_map(m, older),
{
    newer.lemma_extends(older);
    assert(tree_map(m, newer) =~= tree_map(m, older));
}

/// Whether some term of the arena is this tree.
pub open spec fn has_tree(arena: &TermArena, t: Tree) -> bool {
    exists|id: TermId| arena.valid(id) && #[trigger] arena.tree(id) == t
}

/// A tree that expands to more than a leaf expands argument by argument.
pub proof fn lemma_expands_args(b: Bindings, t: Tree)
    requires
        expands(b, t),
    ensures
        root(b, t) matches Tree::Var(w) ==> full(b, t) == Tree::Var(w),
        root(b, t) matches Tree::App(f, args) ==> {
            &&& full(b, t) is App
            &&& full(b, t)->App_0 == f
            &&& full(b, t)->App_1.len() == args.len()
            &&& forall|i: int|
                0 <= i < args.len() ==> expands(b, #[trigger] args[i]) && full(b, t)->App_1[i]
                    == full(b, args[i])
        },
{
    let n = choose|n: nat| (#[trigger] expand(b, t, n)) is Some;
    lemma_full(b, t, n);
    if let Tree::App(f, args) = root(b, t) {
        if args.len() > 0 {
            assert forall|i: int| 0 <= i < args.len() implies expands(b, #[trigger] args[i])
                && full(b, t)->App_1[i] == full(b, args[i]) by {
                lemma_full(b, args[i], (n - 1) as nat);
            }
        }
    }
}

impl Substitution {
    /// No bindings.
    pub fn new() -> (r: Self)
        ensures
            r@ == Map::<VarId, TermId>::empty(),
            forall|arena: &TermArena| #[trigger] acyclic(tree_map(r@, arena)),
    {
        let r = Substitution { bindings: HashMap::new() };
        assert forall|arena: &TermArena| #[trigger] acyclic(tree_map(r@, arena)) by {
            assert(tree_map(r@, arena) =~= Map::<VarId, Tree>::empty());
            no_bindings_are_acyclic();
        }
        r
    }

    /// Whether nothing is bound.
    pub fn is_empty(&self) -> (r: bool)
        ensures
            r == (self@.dom() == Set::<VarId>::empty()),
    {
        let n: usize = self.bindings.len();
        proof {
            self.lemma_finite();
            if self@.dom().len() == 0 {
                assert(self@.dom() =~= Set::empty());
            }
        }
        n == 0
    }

    /// Number of bound variables.
    pub fn len(&self) -> (r: usize)
        ensures
            r == self@.dom().len(),
    {
        self.bindings.len()
    }

    /// Only finitely many variables are bound.
    pub proof fn lemma_finite(&self)
        ensures
            self@.dom().finite(),
    {
    }

    /// Binds `v` to `t`, in place of any earlier binding of `v`.
    pub fn bind(&mut self, v: VarId, t: TermId)
        ensures
            final(self)@ == old(self)@.insert(v, t),
    {
        self.bindings.insert(v, t);
    }

    /// The binding of `v`, if it has one.
    pub fn binding_of(&self, v: VarId) -> (r: Option<TermId>)
        ensures
            r == if self@.contains_key(v) {
                Some(self@[v])
            } else {
                None
            },
    {
        match self.bindings.get(&v) {
            Some(t) => Some(*t),
            None => None,
        }
    }

    fn sorted_vars(&self) -> (r: Vec<VarId>)
        ensures
            ascending(r@),
            forall|v: VarId| #[trigger] self@.contains_key(v) <==> r@.contains(v),
    {
        let mut r: Vec<VarId> = Vec::new();
        proof {
            lemma_listed(
                vstd::std_specs::hash::spec_keys_iter(&self.bindings).remaining(),
                self.bindings@.dom(),
            );
        }
        for k in it: self.bindings.keys()
            invariant
                it.seq().no_duplicates(),
                forall|v: VarId| #[trigger]
                    self.bindings@.dom().contains(v) <==> exists|i: int|
                        0 <= i < it.seq().len() && *#[trigger] it.seq()[i] == v,
                ascending(r@),
                forall|v: VarId| #[trigger]
                    r@.contains(v) <==> exists|i: int|
                        0 <= i < it.index() && *#[trigger] it.seq()[i] == v,
        {
            let key: VarId = *k;
            let ghost before = r@;
            proof {
                assert(!before.contains(key)) by {
                    if before.contains(key) {
                        let i = choose|i: int|
                            0 <= i < it.index() && *#[trigger] it.seq()[i] == key;
                        assert(it.seq()[i] == it.seq()[it.index()]);
                    }
                }
            }
            insert_sorted(&mut r, key);
            proof {
                assert forall|v: VarId| #[trigger] r@.contains(v) <==> exists|i: int|
                    0 <= i < it.index() + 1 && *#[trigger] it.seq()[i] == v by {
                    assert(*it.seq()[it.index()] == key);
                    if before.contains(v) {
                        let i = choose|i: int|
                            0 <= i < it.index() && *#[trigger] it.seq()[i] == v;
                        assert(*it.seq()[i] == v);
                    }
                }
            }
        }
        r
    }

    /// All bindings, in ascending order of the variables.
    pub fn iter(&self) -> (r: Vec<(VarId, TermId)>)
        ensures
            lists(self@, r@),
    {
        let vars: Vec<VarId> = self.sorted_vars();
        let mut r: Vec<(VarId, TermId)> = Vec::new();
        let mut i: usize = 0;
        while i < vars.len()
            invariant
                i <= vars@.len(),
                r@.len() == i,
                forall|v: VarId| #[trigger] self@.contains_key(v) <==> vars@.contains(v),
                forall|k: int|
                    0 <= k < i ==> (#[trigger] r@[k]).0 == vars@[k] && self@.contains_key(vars@[k])
                        && r@[k].1 == self@[vars@[k]],
            decreases vars@.len() - i,
        {
            assert(vars@.contains(vars@[i as int]));
            assert(self@.contains_key(vars@[i as int]));
            if let Some(t) = self.binding_of(vars[i]) {
                r.push((vars[i], t));
            }
            i += 1;
        }
        assert forall|v: VarId| #[trigger] self@.contains_key(v) implies exists|i: int|
            0 <= i < r@.len() && (#[trigger] r@[i]).0 == v by {
            let k = choose|k: int| 0 <= k < vars@.len() && vars@[k] == v;
            assert(r@[k].0 == v);
        }
        r
    }

    /// Follows bindings from `term` to an application or an unbound variable;
    /// stops at a variable that it meets a second time.
    pub fn resolve(&self, term: TermId, arena: &TermArena) -> (r: TermId)
        requires
            arena.wf(),
            arena.valid(term),
            bound_valid(self@, arena),
        ensures
            arena.valid(r),
            arena.tree(r) == root(tree_map(self@, arena), arena.tree(term)),
    {
        let ghost b = tree_map(self@, arena);
        let mut current: TermId = term;
        let mut visited: HashSet<VarId> = HashSet::new();
        proof {
            self.lemma_finite();
            assert(b.dom() =~= self@.dom());
        }
        loop
            invariant
                arena.wf(),
                arena.valid(current),
                bound_valid(self@, arena),
                b == tree_map(self@, arena),
                walk(b, arena.tree(current), visited@) == root(b, arena.tree(term)),
                b.dom().finite(),
                b.dom() =~= self@.dom(),
            decreases b.dom().difference(visited@).len(),
        {
            match arena.get(current) {
                TermData::Var(v) => {
                    let ghost seen = visited@;
                    if visited.contains(&v) {
                        return current;
                    }
                    visited.insert(v);
                    match self.binding_of(v) {
                        Some(next) => {
                            proof {
                                lemma_unseen_shrinks(b.dom(), seen, v);
                            }
                            current = next;
                        },
                        None => {
                            return current;
                        },
                    }
                },
                TermData::App(_, _, _) => {
                    return current;
                },
            }
        }
    }

    /// The term with every binding carried out, or `None` where the arena has
    /// no room for it.
    pub(crate) fn try_apply(&self, term: TermId, arena: &mut TermArena) -> (r: Option<TermId>)
        requires
            old(arena).wf(),
            old(arena).valid(term),
            bound_valid(self@, old(arena)),
            expands(tree_map(self@, old(arena)), old(arena).tree(term)),
        ensures
            final(arena).wf(),
            final(arena).extends(old(arena)),
            ({
                let result = full(tree_map(self@, old(arena)), old(arena).tree(term));
                &&& match r {
                    Some(id) => {
                        &&& final(arena).valid(id)
                        &&& final(arena).tree(id) == result
                        &&& final(arena).forest() == plant(old(arena).forest(), result)
                    },
                    None => !numbered(plant(old(arena).forest(), result)),
                }
                &&& final(arena).forest().is_prefix_of(plant(old(arena).forest(), result))
                &&& has_tree(old(arena), result) ==> r is Some && *final(arena) == *old(arena)
            }),
        decreases full(tree_map(self@, old(arena)), old(arena).tree(term)),
    {
        let ghost b = tree_map(self@, old(arena));
        let ghost t = arena.tree(term);
        let ghost result = full(b, t);
        let resolved: TermId = self.resolve(term, arena);
        proof {
            lemma_expands_args(b, t);
            arena.lemma_tree_app(resolved);
            arena.lemma_forest();
            planting_grows_by_size(old(arena).forest(), result);
            if arena.tree(resolved) == result {
                planting_a_known_tree_changes_nothing(old(arena).forest(), result);
            }
        }
        match arena.get(resolved) {
            TermData::Var(_) => Some(resolved),
            TermData::App(symbol, _, _) => {
                let ghost orig = arena.arg_ids(resolved);
                let ghost fulls = result->App_1;
                let args: Vec<TermId> = slice_to_vec(arena.args(resolved));
                if args.len() == 0 {
                    assert(fulls =~= arena.tree(resolved)->App_1);
                    return Some(resolved);
                }
                proof {
                    old(arena).lemma_args_below(resolved);
                }
                let mut new_args: Vec<TermId> = Vec::new();
                let mut i: usize = 0;
                while i < args.len()
                    invariant
                        old(arena).wf(),
                        arena.wf(),
                        arena.extends(old(arena)),
                        old(arena).valid(resolved),
                        bound_valid(self@, old(arena)),
                        b == tree_map(self@, old(arena)),
                        old(arena).node(resolved) == Node::App(symbol, orig),
                        args@ == orig,
                        old(arena).all_valid(orig),
                        fulls.len() == orig.len(),
                        result == Tree::App(symbol, fulls),
                        result == full(b, t),
                        t == old(arena).tree(term),
                        forall|k: int|
                            0 <= k < orig.len() ==> expands(b, old(arena).tree(#[trigger] orig[k]))
                                && fulls[k] == full(b, old(arena).tree(orig[k])),
                        i <= args@.len(),
                        new_args@.len() == i,
                        arena.all_valid(new_args@),
                        forall|k: int|
                            0 <= k < i ==> arena.tree(#[trigger] new_args@[k]) == fulls[k],
                        arena.forest() == plant_list(old(arena).forest(), fulls, i as nat),
                        has_tree(old(arena), result) ==> *arena == *old(arena),
                    decreases args@.len() - i,
                {
                    let ghost before = *arena;
                    proof {
                        let f0 = old(arena).forest();
                        let all = plant_list(f0, fulls, fulls.len());
                        lemma_plant_list_prefix(f0, fulls, (i + 1) as nat, fulls.len());
                        lemma_with_tree(all, result);
                        lemma_prefix_trans(
                            plant_list(f0, fulls, (i + 1) as nat),
                            all,
                            plant(f0, result),
                        );
                        lemma_tree_map_extends(self@, old(arena), arena);
                        arena.lemma_extends(old(arena));
                        assert(old(arena).valid(orig[i as int]));
                        assert(full(b, old(arena).tree(orig[i as int])) == fulls[i as int]);
                        assert(decreases_to!(result => result->App_1[i as int]));
                        if has_tree(old(arena), result) {
                            lemma_has_args(old(arena), symbol, fulls);
                        }
                    }
                    match self.try_apply(args[i], arena) {
                        Some(id) => {
                            proof {
                                arena.lemma_extends(&before);
                                assert(arena.extends(old(arena)));
                                let before_args = new_args@;
                                assert forall|k: int| 0 <= k < i implies arena.valid(
                                    #[trigger] before_args[k],
                                ) && arena.tree(before_args[k]) == fulls[k] by {
                                    assert(before.valid(before_args[k]));
                                }
                            }
                            new_args.push(id);
                        },
                        None => {
                            proof {
                                let f0 = old(arena).forest();
                                let step = plant_list(f0, fulls, (i + 1) as nat);
                                lemma_prefix_trans(arena.forest(), step, plant(f0, result));
                                if numbered(plant(f0, result)) {
                                    lemma_numbered_prefix(step, plant(f0, result));
                                }
                            }
                            return None;
                        },
                    }
                    i += 1;
                }
                let ghost before = *arena;
                proof {
                    assert(arena.trees(new_args@) =~= fulls);
                    arena.lemma_extends(old(arena));
                    if has_tree(old(arena), result) {
                        lemma_has_node(old(arena), symbol, new_args@, result);
                    }
                }
                let r = arena.try_mk_app(symbol, new_args.as_slice());
                proof {
                    let all = plant_list(old(arena).forest(), fulls, fulls.len());
                    lemma_with_tree(all, result);
                    assert(with_tree(all, result) == plant(old(arena).forest(), result));
                }
                r
            },
        }
    }

    /// The term with every binding carried out, including bindings inside
    /// bindings.
    pub fn apply(&self, term: TermId, arena: &mut TermArena) -> (r: TermId)
        requires
            old(arena).wf(),
            old(arena).valid(term),
            bound_valid(self@, old(arena)),
            acyclic(tree_map(self@, old(arena))) || expands(
                tree_map(self@, old(arena)),
                old(arena).tree(term),
            ),
            numbered(
                plant(
                    old(arena).forest(),
                    full(tree_map(self@, old(arena)), old(arena).tree(term)),
                ),
            ),
        ensures
            final(arena).wf(),
            final(arena).extends(old(arena)),
            final(arena).valid(r),
            final(arena).tree(r) == full(tree_map(self@, old(arena)), old(arena).tree(term)),
            final(arena).forest() == plant(old(arena).forest(), final(arena).tree(r)),
            has_tree(old(arena), final(arena).tree(r)) ==> *final(arena) == *old(arena),
    {
        proof {
            if acyclic(tree_map(self@, arena)) {
                apply_is_idempotent(tree_map(self@, arena), arena.tree(term));
            }
        }
        match self.try_apply(term, arena) {
            Some(id) => id,
            None => 0,
        }
    }

    /// Whether `v` occurs in `term` once bindings are carried out.
    fn occurs(&self, v: VarId, term: TermId, arena: &TermArena, Ghost(n): Ghost<nat>) -> (r: bool)
        requires
            arena.wf(),
            arena.valid(term),
            bound_valid(self@, arena),
            occ(tree_map(self@, arena), v, arena.tree(term), n) is Some,
        ensures
            occ(tree_map(self@, arena), v, arena.tree(term), n) == Some(r),
        decreases n,
    {
        let ghost b = tree_map(self@, arena);
        let resolved: TermId = self.resolve(term, arena);
        proof {
            arena.lemma_tree_app(resolved);
        }
        match arena.get(resolved) {
            TermData::Var(w) => w == v,
            TermData::App(_, _, _) => {
                let args = arena.args(resolved);
                let ghost ts = arena.trees(args@);
                let mut i: usize = 0;
                while i < args.len()
                    invariant
                        n > 0,
                        arena.wf(),
                        bound_valid(self@, arena),
                        b == tree_map(self@, arena),
                        arena.all_valid(args@),
                        ts == arena.trees(args@),
                        i <= args@.len(),
                        occ(b, v, arena.tree(term), n) is Some,
                        occ_from(b, v, ts, i as nat, (n - 1) as nat) == occ(
                            b,
                            v,
                            arena.tree(term),
                            n,
                        ),
                    decreases args@.len() - i,
                {
                    assert(ts[i as int] == arena.tree(args@[i as int]));
                    if self.occurs(v, args[i], arena, Ghost((n - 1) as nat)) {
                        return true;
                    }
                    i += 1;
                }
                false
            },
        }
    }
}

proof fn lemma_has_args(arena: &TermArena, f: u32, ts: Seq<Tree>)
    requires
        arena.wf(),
        has_tree(arena, Tree::App(f, ts)),
    ensures
        forall|k: int| 0 <= k < ts.len() ==> has_tree(arena, #[trigger] ts[k]),
{
    let id = choose|id: TermId| arena.valid(id) && #[trigger] arena.tree(id) == Tree::App(f, ts);
    arena.lemma_tree_app(id);
    let args = arena.arg_ids(id);
    assert forall|k: int| 0 <= k < ts.len() implies has_tree(arena, #[trigger] ts[k]) by {
        assert(arena.trees(args)[k] == ts[k]);
        assert(arena.valid(args[k]));
        assert(arena.tree(args[k]) == ts[k]);
    }
}

proof fn lemma_has_node(arena: &TermArena, f: u32, args: Seq<TermId>, t: Tree)
    requires
        arena.wf(),
        has_tree(arena, t),
        arena.all_valid(args),
        t == Tree::App(f, arena.trees(args)),
    ensures
        arena.has_node(Node::App(f, args)),
{
    let id = choose|id: TermId| arena.valid(id) && #[trigger] arena.tree(id) == t;
    arena.lemma_tree_app(id);
    let own = arena.arg_ids(id);
    assert(arena.trees(own) == arena.trees(args));
    assert(arena.trees(own).len() == own.len() && arena.trees(args).len() == args.len());
    assert forall|k: int| 0 <= k < own.len() implies own[k] == args[k] by {
        assert(arena.trees(own)[k] == arena.trees(args)[k]);
        arena.ids_are_trees(own[k], args[k]);
    }
    assert(own =~= args);
    assert(arena.node(id) == Node::App(f, args));
}

pub(crate) fn slice_to_vec(s: &[TermId]) -> (r: Vec<TermId>)
    ensures
        r@ == s@,
{
    let mut r: Vec<TermId> = Vec::new();
    r.extend_from_slice(s);
    assert(r@ =~= s@);
    r
}

impl Default for Substitution {
    fn default() -> (r: Self)
        ensures
            r@ == Map::<VarId, TermId>::empty(),
    {
        Substitution::new()
    }
}

/// Binding in the map is binding in the trees.
pub proof fn lemma_tree_map_insert(m: Map<VarId, TermId>, v: VarId, t: TermId, arena: &TermArena)
    ensures
        tree_map(m.insert(v, t), arena) == tree_map(m, arena).insert(v, arena.tree(t)),
{
    assert(tree_map(m.insert(v, t), arena) =~= tree_map(m, arena).insert(v, arena.tree(t)));
}

fn bind_if(
    subst: &mut Substitution,
    v: VarId,
    t: TermId,
    arena: &TermArena,
    check: bool,
    Ghost(n): Ghost<nat>,
) -> (r: bool)
    requires
        arena.wf(),
        arena.valid(t),
        bound_valid(old(subst)@, arena),
        bind_checked(tree_map(old(subst)@, arena), v, arena.tree(t), check, n) is Some,
    ensures
        bound_valid(final(subst)@, arena),
        bind_checked(tree_map(old(subst)@, arena), v, arena.tree(t), check, n) == Some(
            (r, tree_map(final(subst)@, arena)),
        ),
{
    if check && subst.occurs(v, t, arena, Ghost(n)) {
        return false;
    }
    proof {
        lemma_tree_map_insert(subst@, v, t, arena);
    }
    subst.bind(v, t);
    true
}

fn unify_rec(
    t1: TermId,
    t2: TermId,
    arena: &TermArena,
    subst: &mut Substitution,
    check: bool,
    Ghost(n): Ghost<nat>,
) -> (r: bool)
    requires
        arena.wf(),
        arena.valid(t1),
        arena.valid(t2),
        bound_valid(old(subst)@, arena),
        uni(tree_map(old(subst)@, arena), arena.tree(t1), arena.tree(t2), check, n) is Some,
    ensures
        bound_valid(final(subst)@, arena),
        uni(tree_map(old(subst)@, arena), arena.tree(t1), arena.tree(t2), check, n) == Some(
            (r, tree_map(final(subst)@, arena)),
        ),
    decreases n, 0int,
{
    let r1: TermId = subst.resolve(t1, arena);
    let r2: TermId = subst.resolve(t2, arena);
    proof {
        arena.ids_are_trees(r1, r2);
        arena.lemma_tree_app(r1);
        arena.lemma_tree_app(r2);
    }
    if r1 == r2 {
        return true;
    }
    match (arena.get(r1), arena.get(r2)) {
        (TermData::Var(v1), TermData::Var(_)) => {
            proof {
                lemma_tree_map_insert(subst@, v1, r2, arena);
            }
            subst.bind(v1, r2);
            true
        },
        (TermData::Var(v1), TermData::App(_, _, _)) => bind_if(
            subst,
            v1,
            r2,
            arena,
            check,
            Ghost(n),
        ),
        (TermData::App(_, _, _), TermData::Var(v2)) => bind_if(
            subst,
            v2,
            r1,
            arena,
            check,
            Ghost(n),
        ),
        (TermData::App(s1, _, _), TermData::App(s2, _, _)) => {
            if s1 != s2 {
                return false;
            }
            let args1 = arena.args(r1);
            let args2 = arena.args(r2);
            if args1.len() != args2.len() {
                return false;
            }
            unify_lists(args1, args2, arena, subst, check, Ghost((n - 1) as nat))
        },
    }
}

fn unify_lists(
    args1: &[TermId],
    args2: &[TermId],
    arena: &TermArena,
    subst: &mut Substitution,
    check: bool,
    Ghost(n): Ghost<nat>,
) -> (r: bool)
    requires
        arena.wf(),
        args1@.len() == args2@.len(),
        arena.all_valid(args1@),
        arena.all_valid(args2@),
        bound_valid(old(subst)@, arena),
        uni_from(
            tree_map(old(subst)@, arena),
            arena.trees(args1@),
            arena.trees(args2@),
            0,
            check,
            n,
        ) is Some,
    ensures
        bound_valid(final(subst)@, arena),
        uni_from(
            tree_map(old(subst)@, arena),
            arena.trees(args1@),
            arena.trees(args2@),
            0,
            check,
            n,
        ) == Some((r, tree_map(final(subst)@, arena))),
    decreases n, 1int,
{
    let ghost ss = arena.trees(args1@);
    let ghost ts = arena.trees(args2@);
    let ghost goal = uni_from(tree_map(subst@, arena), ss, ts, 0, check, n);
    let mut i: usize = 0;
    while i < args1.len()
        invariant
            arena.wf(),
            args1@.len() == args2@.len(),
            arena.all_valid(args1@),
            arena.all_valid(args2@),
            bound_valid(subst@, arena),
            ss == arena.trees(args1@),
            ts == arena.trees(args2@),
            i <= args1@.len(),
            goal is Some,
            goal == uni_from(tree_map(old(subst)@, arena), ss, ts, 0, check, n),
            uni_from(tree_map(subst@, arena), ss, ts, i as nat, check, n) == goal,
        decreases args1@.len() - i,
    {
        assert(ss[i as int] == arena.tree(args1@[i as int]));
        assert(ts[i as int] == arena.tree(args2@[i as int]));
        if !unify_rec(args1[i], args2[i], arena, subst, check, Ghost(n)) {
            return false;
        }
        i += 1;
    }
    true
}

/// Unifies two terms under the bindings made so far, with the occurs check:
/// a variable is not bound to a term that contains it. Bindings made before a
/// failure stay in `subst`. Bindings without cycles stay without.
pub fn unify(t1: TermId, t2: TermId, arena: &TermArena, subst: &mut Substitution) -> (r: bool)
    requires
        arena.wf(),
        arena.valid(t1),
        arena.valid(t2),
        bound_valid(old(subst)@, arena),
        acyclic(tree_map(old(subst)@, arena)) || unify_halts(
            tree_map(old(subst)@, arena),
            arena.tree(t1),
            arena.tree(t2),
            true,
        ),
    ensures
        bound_valid(final(subst)@, arena),
        acyclic(tree_map(old(subst)@, arena)) ==> acyclic(tree_map(final(subst)@, arena)),
        (r, tree_map(final(subst)@, arena)) == unify_outcome(
            tree_map(old(subst)@, arena),
            arena.tree(t1),
            arena.tree(t2),
            true,
        ),
{
    unify_with_occurs_check(t1, t2, arena, subst, true)
}

/// Unifies two terms under the bindings made so far, with or without the
/// occurs check.
pub fn unify_with_occurs_check(
    t1: TermId,
    t2: TermId,
    arena: &TermArena,
    subst: &mut Substitution,
    occurs_check: bool,
) -> (r: bool)
    requires
        arena.wf(),
        arena.valid(t1),
        arena.valid(t2),
        bound_valid(old(subst)@, arena),
        occurs_check && acyclic(tree_map(old(subst)@, arena)) || unify_halts(
            tree_map(old(subst)@, arena),
            arena.tree(t1),
            arena.tree(t2),
            occurs_check,
        ),
    ensures
        bound_valid(final(subst)@, arena),
        occurs_check && acyclic(tree_map(old(subst)@, arena)) ==> acyclic(
            tree_map(final(subst)@, arena),
        ),
        (r, tree_map(final(subst)@, arena)) == unify_outcome(
            tree_map(old(subst)@, arena),
            arena.tree(t1),
            arena.tree(t2),
            occurs_check,
        ),
{
    let ghost b = tree_map(subst@, arena);
    let ghost s = arena.tree(t1);
    let ghost t = arena.tree(t2);
    proof {
        if occurs_check && acyclic(b) {
            unify_is_most_general(b, s, t);
        }
    }
    let ghost n = choose|n: nat| (#[trigger] uni(b, s, t, occurs_check, n)) is Some;
    proof {
        lemma_unify_outcome(b, s, t, occurs_check, n);
    }
    unify_rec(t1, t2, arena, subst, occurs_check, Ghost(n))
}

/// Unifies the argument lists of two literals from left to right, with the
/// occurs check. Literals with different predicates or arities do not unify;
/// polarity plays no part.
pub fn unify_literals(
    l1: &Literal,
    l2: &Literal,
    arena: &TermArena,
    subst: &mut Substitution,
) -> (r: bool)
    requires
        arena.wf(),
        l1@.valid(arena),
        l2@.valid(arena),
        bound_valid(old(subst)@, arena),
        l1@.predicate == l2@.predicate && l1@.args.len() == l2@.args.len() ==> acyclic(
            tree_map(old(subst)@, arena),
        ) || unify_lists_halts(
            tree_map(old(subst)@, arena),
            l1@.lit(arena).args,
            l2@.lit(arena).args,
        ),
    ensures
        bound_valid(final(subst)@, arena),
        acyclic(tree_map(old(subst)@, arena)) ==> acyclic(tree_map(final(subst)@, arena)),
        if l1@.predicate == l2@.predicate && l1@.args.len() == l2@.args.len() {
            (r, tree_map(final(subst)@, arena)) == unify_lists_outcome(
                tree_map(old(subst)@, arena),
                l1@.lit(arena).args,
                l2@.lit(arena).args,
            )
        } else {
            !r && *final(subst) == *old(subst)
        },
{
    if l1.predicate != l2.predicate || l1.args.len() != l2.args.len() {
        return false;
    }
    let ghost b = tree_map(subst@, arena);
    let ghost ss = l1@.lit(arena).args;
    let ghost ts = l2@.lit(arena).args;
    proof {
        if acyclic(b) {
            unify_lists_is_most_general(b, ss, ts);
        }
    }
    let ghost n = choose|n: nat| (#[trigger] uni_from(b, ss, ts, 0, true, n)) is Some;
    proof {
        lemma_unify_lists_outcome(b, ss, ts, n);
    }
    unify_lists(l1.args.as_slice(), l2.args.as_slice(), arena, subst, true, Ghost(n))
}

// ---------------------------------------------------------------------------
// Laws.
// ---------------------------------------------------------------------------
/// Unification with the occurs check always ends on bindings without cycles.
/// It leaves bindings without cycles, and either a most general unifier or
/// the certainty that there is none.
pub proof fn unify_is_most_general(b: Bindings, s: Tree, t: Tree)
    requires
        acyclic(b),
    ensures
        unify_halts(b, s, t, true),
        most_general(b, s, t, unify_outcome(b, s, t, true).0, unify_outcome(b, s, t, true).1),
{
    let n = lemma_unify(b, s, t);
    lemma_unify_outcome(b, s, t, true, n);
}

/// The same for the argument lists of two literals.
pub proof fn unify_lists_is_most_general(b: Bindings, ss: Seq<Tree>, ts: Seq<Tree>)
    requires
        acyclic(b),
        ss.len() == ts.len(),
    ensures
        unify_lists_halts(b, ss, ts),
        most_general_from(
            b,
            ss,
            ts,
            0,
            unify_lists_outcome(b, ss, ts).0,
            unify_lists_outcome(b, ss, ts).1,
        ),
{
    let n = lemma_unify_from(b, ss, ts, 0);
    lemma_unify_lists_outcome(b, ss, ts, n);
}

/// No bindings at all are without cycles, and every assignment agrees with
/// them.
pub proof fn no_bindings_are_acyclic()
    ensures
        acyclic(Map::<VarId, Tree>::empty()),
        forall|tau: Assignment| #[trigger] solves(Map::<VarId, Tree>::empty(), tau),
{
    let rank = |v: VarId| 0nat;
    assert(crate::bindings::ranked(Map::<VarId, Tree>::empty(), rank));
}

/// Applying the unifier to the two terms gives the same term.
pub proof fn unifier_equates(b: Bindings, s: Tree, t: Tree)
    requires
        acyclic(b),
        unify_outcome(b, s, t, true).0,
    ensures
        ({
            let b1 = unify_outcome(b, s, t, true).1;
            expands(b1, s) && expands(b1, t) && full(b1, s) == full(b1, t)
        }),
{
    unify_is_most_general(b, s, t);
    let b1 = unify_outcome(b, s, t, true).1;
    lemma_closure_solves(b1);
    lemma_full_inst(b1, s);
    lemma_full_inst(b1, t);
    lemma_full_acyclic(b1, s);
    lemma_full_acyclic(b1, t);
}

/// Every unifier that agrees with the bindings is an instance of the one that
/// was found.
pub proof fn unifiers_are_instances(b: Bindings, s: Tree, t: Tree, tau: Assignment, x: Tree)
    requires
        acyclic(b),
        solves(b, tau),
        s.inst(tau) == t.inst(tau),
    ensures
        unify_outcome(b, s, t, true).0,
        x.inst(tau) == full(unify_outcome(b, s, t, true).1, x).inst(tau),
{
    unify_is_most_general(b, s, t);
    let b1 = unify_outcome(b, s, t, true).1;
    assert(solves(b1, tau));
    lemma_solution_factors(b1, x, tau);
}

/// Whether two terms unify does not depend on their order.
pub proof fn unify_is_symmetric(b: Bindings, s: Tree, t: Tree)
    requires
        acyclic(b),
    ensures
        unify_outcome(b, s, t, true).0 == unify_outcome(b, t, s, true).0,
{
    if unify_outcome(b, s, t, true).0 {
        lemma_some_unifier(b, s, t);
    }
    if unify_outcome(b, t, s, true).0 {
        lemma_some_unifier(b, t, s);
    }
}

proof fn lemma_some_unifier(b: Bindings, s: Tree, t: Tree)
    requires
        acyclic(b),
        unify_outcome(b, s, t, true).0,
    ensures
        unify_outcome(b, t, s, true).0,
{
    unify_is_most_general(b, s, t);
    let b1 = unify_outcome(b, s, t, true).1;
    lemma_closure_solves(b1);
    unifiers_are_instances(b, t, s, closure(b1), s);
}

/// A variable does not unify with an application that contains it.
pub proof fn occurs_check_rejects(v: VarId, t: Tree)
    requires
        t is App,
        t.has_var(v),
    ensures
        !unify_outcome(Map::<VarId, Tree>::empty(), Tree::Var(v), t, true).0,
{
    let b = Map::<VarId, Tree>::empty();
    no_bindings_are_acyclic();
    unify_is_most_general(b, Tree::Var(v), t);
    if unify_outcome(b, Tree::Var(v), t, true).0 {
        let b1 = unify_outcome(b, Tree::Var(v), t, true).1;
        lemma_closure_solves(b1);
        let tau = closure(b1);
        assert(solves(b1, tau));
        crate::tree::lemma_inst_size(t, tau, v);
    }
}

/// Where unification with the occurs check succeeds, unification without it
/// ends with the same bindings.
pub proof fn unchecked_agrees_with_checked(b: Bindings, s: Tree, t: Tree)
    requires
        acyclic(b),
        unify_outcome(b, s, t, true).0,
    ensures
        unify_halts(b, s, t, false),
        unify_outcome(b, s, t, false) == unify_outcome(b, s, t, true),
{
    let n = lemma_unify(b, s, t);
    lemma_unify_outcome(b, s, t, true, n);
    lemma_unchecked(b, s, t, n);
    lemma_unify_outcome(b, s, t, false, n);
}

/// Following bindings twice is following them once.
pub proof fn resolve_is_idempotent(b: Bindings, t: Tree)
    requires
        acyclic(b),
    ensures
        root(b, root(b, t)) == root(b, t),
{
    lemma_root_root(b, t);
}

/// Applying twice is applying once: nothing is left to carry out.
pub proof fn apply_is_idempotent(b: Bindings, t: Tree)
    requires
        acyclic(b),
    ensures
        expands(b, t),
        expands(b, full(b, t)),
        full(b, full(b, t)) == full(b, t),
{
    lemma_full_acyclic(b, t);
    lemma_full_acyclic(b, full(b, t));
    lemma_closure_solves(b);
    lemma_full_inst(b, full(b, t));
    lemma_full_inst(b, t);
    lemma_solution_factors(b, t, closure(b));
}

/// Applying changes nothing in a term without bound variables, so no term is
/// built.
pub proof fn apply_keeps_unbound(b: Bindings, t: Tree)
    requires
        acyclic(b),
        forall|v: VarId| #[trigger] t.has_var(v) ==> !b.contains_key(v),
    ensures
        expands(b, t),
        full(b, t) == t,
    decreases t,
{
    lemma_full_acyclic(b, t);
    match t {
        Tree::Var(v) => {
            assert(t.has_var(v));
        },
        Tree::App(f, args) => {
            assert forall|i: int| 0 <= i < args.len() implies full(b, #[trigger] args[i])
                == args[i] by {
                assert forall|v: VarId| #[trigger] args[i].has_var(v) implies !b.contains_key(
                    v,
                ) by {
                    assert(t.has_var(v));
                }
                apply_keeps_unbound(b, args[i]);
            }
            assert(full(b, t)->App_1 =~= args);
        },
    }
}

} // verus!
