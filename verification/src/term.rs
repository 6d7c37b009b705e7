//! Terms with structural sharing.
//!
//! Every term lives in a [`TermArena`] and is named by a [`TermId`], an index
//! into the arena. A term that is built twice gets the same id both times, so
//! comparing ids compares terms: see [`TermArena::ids_are_trees`].
use crate::forest::{arities, closed_forest, numbered, with_tree, Forest};
use crate::text::{chars_of, decimal, push_decimal};
use crate::tree::{deepest, lemma_sizes_monotonic, sizes, Tree};
use std::collections::HashMap;
use vstd::prelude::*;
use vstd::wrapping::u64_specs;

verus! {

broadcast use vstd::std_specs::hash::group_hash_axioms;

/// Index of a symbol in a symbol table.
pub type SymbolId = u32;

/// A variable. The number means something within one clause only.
pub type VarId = u32;

/// Index of a term in a term arena.
pub type TermId = u32;

/// What the arena stores for one term. The arguments of an application are a
/// range of the arena's argument pool.
#[derive(Debug, Clone, Copy, PartialEq, Eq, Hash, Structural)]
pub enum TermData {
    /// A variable.
    Var(VarId),
    /// A symbol, the start of its arguments in the pool and their number. A
    /// constant has no arguments.
    App(SymbolId, u32, u32),
}

/// Owns every term of one problem and shares equal ones.
#[derive(Debug)]
pub struct TermArena {
    /// `terms[id]` describes the term `id`.
    pub terms: Vec<TermData>,
    /// The argument lists of all applications, one after the other.
    pub args_pool: Vec<TermId>,
    /// Maps the content key of a node to the ids of the nodes with that key.
    intern_map: HashMap<u64, Vec<TermId>>,
}

/// One level of a term: a variable, or a symbol with the ids of its arguments.
pub enum Node {
    Var(VarId),
    App(SymbolId, Seq<TermId>),
}

const KEY_FACTOR: u64 = 0x9E37_79B9_7F4A_7C15;

const VAR_SEED: u64 = 1;

const APP_SEED: u64 = 2;

spec fn mix_spec(h: u64, x: u32) -> u64 {
    u64_specs::wrapping_add(u64_specs::wrapping_mul(h, KEY_FACTOR), x as u64)
}

spec fn args_key(seed: u64, args: Seq<TermId>) -> u64
    decreases args.len(),
{
    if args.len() == 0 {
        seed
    } else {
        mix_spec(args_key(seed, args.drop_last()), args.last())
    }
}

spec fn node_key(n: Node) -> u64 {
    match n {
        Node::Var(v) => mix_spec(VAR_SEED, v),
        Node::App(s, args) => args_key(mix_spec(APP_SEED, s), args),
    }
}

fn mix(h: u64, x: u32) -> (r: u64)
    ensures
        r == mix_spec(h, x),
{
    h.wrapping_mul(KEY_FACTOR).wrapping_add(x as u64)
}

fn app_key(symbol: SymbolId, args: &[TermId]) -> (r: u64)
    ensures
        r == node_key(Node::App(symbol, args@)),
{
    let mut h: u64 = mix(APP_SEED, symbol);
    let mut i: usize = 0;
    while i < args.len()
        invariant
            i <= args@.len(),
            h == args_key(mix_spec(APP_SEED, symbol), args@.take(i as int)),
        decreases args@.len() - i,
    {
        assert(args@.take(i + 1).drop_last() =~= args@.take(i as int));
        h = mix(h, args[i]);
        i += 1;
    }
    assert(args@.take(i as int) =~= args@);
    h
}

impl TermArena {
    /// The stored descriptions, by id.
    pub closed spec fn data(&self) -> Seq<TermData> {
        self.terms@
    }

    /// The stored argument lists.
    pub closed spec fn pool(&self) -> Seq<TermId> {
        self.args_pool@
    }

    /// Whether `id` names a term of this arena.
    pub open spec fn valid(&self, id: TermId) -> bool {
        (id as int) < self.data().len()
    }

    /// Whether all ids name terms of this arena.
    pub open spec fn all_valid(&self, ids: Seq<TermId>) -> bool {
        forall|i: int| 0 <= i < ids.len() ==> self.valid(#[trigger] ids[i])
    }

    /// The top level of the term `id`.
    pub open spec fn node(&self, id: TermId) -> Node {
        match self.data()[id as int] {
            TermData::Var(v) => Node::Var(v),
            TermData::App(s, start, len) => Node::App(
                s,
                self.pool().subrange(start as int, start + len),
            ),
        }
    }

    /// The ids of the arguments of `id`; a variable has none.
    pub open spec fn arg_ids(&self, id: TermId) -> Seq<TermId> {
        match self.node(id) {
            Node::Var(_) => Seq::empty(),
            Node::App(_, args) => args,
        }
    }

    /// The tree that the term `id` stands for.
    pub open spec fn tree(&self, id: TermId) -> Tree
        decreases id,
    {
        match self.node(id) {
            Node::Var(v) => Tree::Var(v),
            Node::App(s, args) => Tree::App(
                s,
                Seq::new(
                    args.len(),
                    |i: int|
                        if args[i] < id {
                            self.tree(args[i])
                        } else {
                            Tree::Var(0)
                        },
                ),
            ),
        }
    }

    /// The trees of a list of terms.
    pub open spec fn trees(&self, ids: Seq<TermId>) -> Seq<Tree> {
        Seq::new(ids.len(), |i: int| self.tree(ids[i]))
    }

    /// The trees of all terms, by id.
    pub open spec fn forest(&self) -> Forest {
        Seq::new(self.data().len(), |i: int| self.tree(i as TermId))
    }

    spec fn node_ok(&self, id: TermId) -> bool {
        match self.data()[id as int] {
            TermData::Var(_) => true,
            TermData::App(_, start, len) => {
                &&& start + len <= self.pool().len()
                &&& forall|k: int|
                    start <= k < start + len ==> (#[trigger] self.pool()[k]) < id
            },
        }
    }

    spec fn indexed(&self) -> bool {
        &&& forall|id: TermId|
            self.valid(id) ==> {
                let key = #[trigger] node_key(self.node(id));
                &&& self.intern_map@.contains_key(key)
                &&& self.intern_map@[key]@.contains(id)
            }
        &&& forall|key: u64, k: int|
            self.intern_map@.contains_key(key) && 0 <= k < self.intern_map@[key]@.len()
                ==> self.valid(#[trigger] self.intern_map@[key]@[k])
    }

    /// The arena's invariant: arguments precede the terms built from them, no
    /// two ids have the same content, and the index finds every content.
    pub closed spec fn wf(&self) -> bool {
        &&& self.data().len() <= u32::MAX
        &&& self.pool().len() <= u32::MAX
        &&& self.pool().len() == arities(self.forest())
        &&& forall|id: TermId| self.valid(id) ==> #[trigger] self.node_ok(id)
        &&& forall|i: TermId, j: TermId|
            self.valid(i) && self.valid(j) && i != j ==> #[trigger] self.node(i)
                != #[trigger] self.node(j)
        &&& self.indexed()
    }

    /// Whether a node with this content exists.
    pub open spec fn has_node(&self, n: Node) -> bool {
        exists|id: TermId| self.valid(id) && #[trigger] self.node(id) == n
    }

    /// Whether a new node with `k` arguments fits into the 32-bit id spaces.
    pub open spec fn fits(&self, k: nat) -> bool {
        self.data().len() < u32::MAX && self.pool().len() + k <= u32::MAX
    }

    /// Whether this arena is `older` with terms added at the end.
    pub open spec fn extends(&self, older: &TermArena) -> bool {
        &&& older.data().is_prefix_of(self.data())
        &&& older.pool().is_prefix_of(self.pool())
    }

    /// An empty arena.
    pub fn new() -> (r: Self)
        ensures
            r.wf(),
            r.data().len() == 0,
            r.pool().len() == 0,
            r.forest() == Seq::<Tree>::empty(),
    {
        TermArena { terms: Vec::new(), args_pool: Vec::new(), intern_map: HashMap::new() }
    }

    /// Number of distinct terms.
    pub fn len(&self) -> (r: usize)
        ensures
            r == self.data().len(),
    {
        self.terms.len()
    }

    /// Whether the arena holds no term.
    pub fn is_empty(&self) -> (r: bool)
        ensures
            r == (self.data().len() == 0),
    {
        self.terms.len() == 0
    }

    fn find_var(&self, v: VarId) -> (r: Option<TermId>)
        requires
            self.wf(),
        ensures
            match r {
                Some(id) => self.valid(id) && self.node(id) == Node::Var(v),
                None => !self.has_node(Node::Var(v)),
            },
    {
        let key: u64 = mix(VAR_SEED, v);
        assert(key == node_key(Node::Var(v)));
        match self.intern_map.get(&key) {
            None => None,
            Some(bucket) => {
                let mut i: usize = 0;
                while i < bucket.len()
                    invariant
                        self.wf(),
                        key == node_key(Node::Var(v)),
                        self.intern_map@.contains_key(key),
                        *bucket == self.intern_map@[key],
                        i <= bucket@.len(),
                        forall|k: int|
                            0 <= k < i ==> self.node(#[trigger] bucket@[k]) != Node::Var(v),
                    decreases bucket@.len() - i,
                {
                    let id: TermId = bucket[i];
                    assert(self.valid(self.intern_map@[key]@[i as int]));
                    if let TermData::Var(w) = self.terms[id as usize] {
                        if w == v {
                            return Some(id);
                        }
                    }
                    i += 1;
                }
                None
            },
        }
    }

    fn same_args(&self, id: TermId, args: &[TermId]) -> (r: bool)
        requires
            self.wf(),
            self.valid(id),
        ensures
            r == (self.arg_ids(id) == args@),
    {
        let own = self.args(id);
        if own.len() != args.len() {
            return false;
        }
        let mut i: usize = 0;
        while i < args.len()
            invariant
                own@ == self.arg_ids(id),
                own@.len() == args@.len(),
                i <= args@.len(),
                own@.take(i as int) =~= args@.take(i as int),
            decreases args@.len() - i,
        {
            if own[i] != args[i] {
                return false;
            }
            assert(own@.take(i + 1) =~= own@.take(i as int).push(own@[i as int]));
            assert(args@.take(i + 1) =~= args@.take(i as int).push(args@[i as int]));
            i += 1;
        }
        assert(own@.take(i as int) =~= own@);
        assert(args@.take(i as int) =~= args@);
        true
    }

    fn find_app(&self, key: u64, symbol: SymbolId, args: &[TermId]) -> (r: Option<TermId>)
        requires
            self.wf(),
            key == node_key(Node::App(symbol, args@)),
        ensures
            match r {
                Some(id) => self.valid(id) && self.node(id) == Node::App(symbol, args@),
                None => !self.has_node(Node::App(symbol, args@)),
            },
    {
        match self.intern_map.get(&key) {
            None => None,
            Some(bucket) => {
                let mut i: usize = 0;
                while i < bucket.len()
                    invariant
                        self.wf(),
                        key == node_key(Node::App(symbol, args@)),
                        self.intern_map@.contains_key(key),
                        *bucket == self.intern_map@[key],
                        i <= bucket@.len(),
                        forall|k: int|
                            0 <= k < i ==> self.node(#[trigger] bucket@[k]) != Node::App(
                                symbol,
                                args@,
                            ),
                    decreases bucket@.len() - i,
                {
                    let id: TermId = bucket[i];
                    assert(self.valid(self.intern_map@[key]@[i as int]));
                    if let TermData::App(s, _, _) = self.terms[id as usize] {
                        if s == symbol && self.same_args(id, args) {
                            return Some(id);
                        }
                    }
                    i += 1;
                }
                None
            },
        }
    }

    fn index_last(&mut self, key: u64)
        requires
            old(self).data().len() > 0,
            old(self).data().len() <= u32::MAX,
            key == node_key(old(self).node((old(self).data().len() - 1) as TermId)),
            forall|id: TermId|
                id < old(self).data().len() - 1 ==> {
                    let k = #[trigger] node_key(old(self).node(id));
                    &&& old(self).intern_map@.contains_key(k)
                    &&& old(self).intern_map@[k]@.contains(id)
                },
            forall|k: u64, i: int|
                old(self).intern_map@.contains_key(k) && 0 <= i < old(
                    self,
                ).intern_map@[k]@.len() ==> old(self).valid(
                    #[trigger] old(self).intern_map@[k]@[i],
                ),
        ensures
            final(self).terms == old(self).terms,
            final(self).args_pool == old(self).args_pool,
            final(self).indexed(),
            forall|i: TermId| #[trigger] final(self).node(i) == old(self).node(i),
            forall|i: TermId| #[trigger] final(self).node_ok(i) == old(self).node_ok(i),
    {
        let id: TermId = (self.terms.len() - 1) as TermId;
        let mut bucket: Vec<TermId> = match self.intern_map.remove(&key) {
            Some(b) => b,
            None => Vec::new(),
        };
        let ghost before = bucket@;
        bucket.push(id);
        self.intern_map.insert(key, bucket);
        proof {
            let now = self.intern_map@[key]@;
            assert(now == before.push(id));
            assert(now[now.len() - 1] == id);
            assert forall|i: TermId| self.valid(i) implies {
                let k = #[trigger] node_key(self.node(i));
                &&& self.intern_map@.contains_key(k)
                &&& self.intern_map@[k]@.contains(i)
            } by {
                assert(self.node(i) == old(self).node(i));
                let k = node_key(self.node(i));
                if i < id && k == key {
                    let j = choose|j: int| 0 <= j < before.len() && before[j] == i;
                    assert(now[j] == i);
                }
            }
        }
    }

    proof fn lemma_same_forest(&self, other: &TermArena)
        requires
            self.terms == other.terms,
            self.args_pool == other.args_pool,
        ensures
            self.forest() == other.forest(),
            forall|i: TermId| #[trigger] self.tree(i) == other.tree(i),
    {
        assert forall|i: TermId| #[trigger] self.tree(i) == other.tree(i) by {
            self.lemma_same_contents(other, i);
        }
        assert(self.forest() =~= other.forest());
    }

    proof fn lemma_same_contents(&self, other: &TermArena, i: TermId)
        requires
            self.terms == other.terms,
            self.args_pool == other.args_pool,
        ensures
            self.tree(i) == other.tree(i),
        decreases i,
    {
        assert(self.node(i) == other.node(i));
        if let Node::App(_, args) = self.node(i) {
            assert forall|k: int| 0 <= k < args.len() && args[k] < i implies self.tree(
                #[trigger] args[k],
            ) == other.tree(args[k]) by {
                self.lemma_same_contents(other, args[k]);
            }
            assert(self.tree(i)->App_1 =~= other.tree(i)->App_1);
        }
    }

    /// A variable without a node has no tree either.
    proof fn lemma_new_tree(&self, n: Node, t: Tree)
        requires
            self.wf(),
            n is Var,
            t == Tree::Var(n->Var_0),
            !self.has_node(n),
        ensures
            !self.forest().contains(t),
            with_tree(self.forest(), t).len() == self.data().len() + 1,
    {
        let f = self.forest();
        if f.contains(t) {
            let i = choose|i: int| 0 <= i < f.len() && f[i] == t;
            self.lemma_tree_app(i as TermId);
            assert(self.node(i as TermId) == n);
        }
    }

    /// An application without a node has no tree either.
    proof fn lemma_new_app(&self, s: SymbolId, args: Seq<TermId>)
        requires
            self.wf(),
            self.all_valid(args),
            !self.has_node(Node::App(s, args)),
        ensures
            ({
                let t = Tree::App(s, self.trees(args));
                &&& !self.forest().contains(t)
                &&& with_tree(self.forest(), t).len() == self.data().len() + 1
                &&& arities(with_tree(self.forest(), t)) == self.pool().len() + args.len()
            }),
    {
        let f = self.forest();
        let t = Tree::App(s, self.trees(args));
        if f.contains(t) {
            let i = choose|i: int| 0 <= i < f.len() && f[i] == t;
            let id = i as TermId;
            self.lemma_tree_app(id);
            let own = self.arg_ids(id);
            assert(self.trees(own) == self.trees(args));
            assert(self.trees(own).len() == own.len() && self.trees(args).len() == args.len());
            assert forall|k: int| 0 <= k < own.len() implies own[k] == args[k] by {
                assert(self.trees(own)[k] == self.trees(args)[k]);
                self.ids_are_trees(own[k], args[k]);
            }
            assert(own =~= args);
            assert(self.node(id) == Node::App(s, args));
        }
        assert(f.push(t).drop_last() =~= f);
    }

    /// The id of the variable `v`, or `None` where a new variable would not
    /// fit into the id space.
    pub(crate) fn try_mk_var(&mut self, v: VarId) -> (r: Option<TermId>)
        requires
            old(self).wf(),
        ensures
            final(self).wf(),
            final(self).extends(old(self)),
            match r {
                Some(id) => {
                    &&& final(self).valid(id)
                    &&& final(self).node(id) == Node::Var(v)
                    &&& final(self).tree(id) == Tree::Var(v)
                },
                None => {
                    &&& !old(self).has_node(Node::Var(v)) && !old(self).fits(0)
                    &&& !numbered(with_tree(old(self).forest(), Tree::Var(v)))
                },
            },
            r is Some ==> final(self).forest() == with_tree(old(self).forest(), Tree::Var(v)),
            old(self).has_node(Node::Var(v)) || r is None ==> *final(self) == *old(self),
            !old(self).has_node(Node::Var(v)) && r is Some ==> {
                &&& final(self).data().len() == old(self).data().len() + 1
                &&& final(self).pool() == old(self).pool()
            },
    {
        if let Some(id) = self.find_var(v) {
            proof {
                self.lemma_forest();
            }
            return Some(id);
        }
        proof {
            self.lemma_new_tree(Node::Var(v), Tree::Var(v));
        }
        if self.terms.len() >= u32::MAX as usize {
            return None;
        }
        let id: TermId = self.terms.len() as TermId;
        self.terms.push(TermData::Var(v));
        proof {
            self.lemma_pushed(old(self), id);
            self.lemma_grown(old(self), id);
        }
        let ghost grown = *self;
        self.index_last(mix(VAR_SEED, v));
        proof {
            self.lemma_extends(old(self));
            self.lemma_same_forest(&grown);
            assert(self.wf());
        }
        Some(id)
    }

    proof fn lemma_pushed(&self, older: &TermArena, id: TermId)
        requires
            older.wf(),
            self.extends(older),
            id as int == older.data().len(),
            self.data().len() == id + 1,
            self.node_ok(id),
            !older.has_node(self.node(id)),
            self.intern_map == older.intern_map,
        ensures
            forall|i: TermId| i < id ==> #[trigger] self.node(i) == older.node(i),
            forall|i: TermId| i < id ==> #[trigger] self.node_ok(i),
            forall|i: TermId, j: TermId|
                i <= id && j <= id && i != j ==> #[trigger] self.node(i) != #[trigger] self.node(j),
            forall|k: u64, i: int|
                self.intern_map@.contains_key(k) && 0 <= i < self.intern_map@[k]@.len()
                    ==> self.valid(#[trigger] self.intern_map@[k]@[i]),
            forall|i: TermId|
                i < id ==> {
                    let k = #[trigger] node_key(self.node(i));
                    &&& self.intern_map@.contains_key(k)
                    &&& self.intern_map@[k]@.contains(i)
                },
    {
        assert forall|i: TermId| i < id implies #[trigger] self.node(i) == older.node(i) by {
            self.lemma_same_node(older, i);
        }
        assert forall|i: TermId| i < id implies #[trigger] self.node_ok(i) by {
            self.lemma_same_node(older, i);
        }
    }

    proof fn lemma_same_node(&self, older: &TermArena, i: TermId)
        requires
            older.wf(),
            self.extends(older),
            older.valid(i),
        ensures
            self.node(i) == older.node(i),
            self.node_ok(i),
    {
        assert(older.node_ok(i));
        assert(self.data()[i as int] == older.data()[i as int]);
        if let TermData::App(s, start, len) = older.data()[i as int] {
            assert(self.pool().subrange(start as int, start + len)
                =~= older.pool().subrange(start as int, start + len));
            assert forall|k: int| start <= k < start + len implies (
            #[trigger] self.pool()[k]) < i by {
                assert(older.pool()[k] == self.pool()[k]);
            }
        }
    }

    /// Old ids keep their content and their tree when the arena grows.
    pub proof fn lemma_extends(&self, older: &TermArena)
        requires
            older.wf(),
            self.extends(older),
        ensures
            forall|id: TermId| older.valid(id) ==> self.valid(id),
            forall|id: TermId| older.valid(id) ==> #[trigger] self.node(id) == older.node(id),
            forall|id: TermId| older.valid(id) ==> #[trigger] self.tree(id) == older.tree(id),
    {
        assert forall|id: TermId| older.valid(id) implies #[trigger] self.node(id)
            == older.node(id) by {
            self.lemma_same_node(older, id);
        }
        assert forall|id: TermId| older.valid(id) implies #[trigger] self.tree(id)
            == older.tree(id) by {
            self.lemma_same_tree(older, id);
        }
    }

    proof fn lemma_same_tree(&self, older: &TermArena, id: TermId)
        requires
            older.wf(),
            self.extends(older),
            older.valid(id),
        ensures
            self.tree(id) == older.tree(id),
        decreases id,
    {
        self.lemma_same_node(older, id);
        if let Node::App(_, args) = older.node(id) {
            older.lemma_args_below(id);
            assert forall|k: int| 0 <= k < args.len() implies self.tree(#[trigger] args[k])
                == older.tree(args[k]) by {
                self.lemma_same_tree(older, args[k]);
            }
            assert(self.tree(id)->App_1 =~= older.tree(id)->App_1);
        }
    }

    /// Lists of old ids keep their trees when the arena grows.
    pub proof fn lemma_extends_trees(&self, older: &TermArena, ids: Seq<TermId>)
        requires
            older.wf(),
            self.extends(older),
            older.all_valid(ids),
        ensures
            self.all_valid(ids),
            self.trees(ids) == older.trees(ids),
    {
        self.lemma_extends(older);
        assert(self.trees(ids) =~= older.trees(ids));
    }

    /// Arguments are valid and precede the term they are arguments of.
    pub proof fn lemma_args_below(&self, id: TermId)
        requires
            self.wf(),
            self.valid(id),
        ensures
            forall|k: int|
                0 <= k < self.arg_ids(id).len() ==> (#[trigger] self.arg_ids(id)[k]) < id,
            self.all_valid(self.arg_ids(id)),
    {
        assert(self.node_ok(id));
        if let TermData::App(s, start, len) = self.data()[id as int] {
            assert forall|k: int| 0 <= k < self.arg_ids(id).len() implies (
            #[trigger] self.arg_ids(id)[k]) < id by {
                assert(self.arg_ids(id)[k] == self.pool()[start + k]);
            }
        }
    }

    /// The tree of an application consists of the trees of its arguments.
    pub proof fn lemma_tree_app(&self, id: TermId)
        requires
            self.wf(),
            self.valid(id),
        ensures
            match self.node(id) {
                Node::Var(v) => self.tree(id) == Tree::Var(v),
                Node::App(s, args) => {
                    &&& self.tree(id) == Tree::App(s, self.trees(args))
                    &&& self.all_valid(args)
                },
            },
    {
        self.lemma_args_below(id);
        if let Node::App(s, args) = self.node(id) {
            assert(self.tree(id)->App_1 =~= self.trees(args));
        }
    }

    /// The forest has as many trees and arguments as the arena, and arguments
    /// of its trees are in it.
    pub proof fn lemma_forest(&self)
        requires
            self.wf(),
        ensures
            self.forest().len() == self.data().len(),
            arities(self.forest()) == self.pool().len(),
            numbered(self.forest()),
            closed_forest(self.forest()),
            forall|id: TermId| self.valid(id) ==> self.forest().contains(#[trigger] self.tree(id)),
    {
        let f = self.forest();
        assert forall|id: TermId| self.valid(id) implies f.contains(#[trigger] self.tree(id)) by {
            assert(f[id as int] == self.tree(id));
        }
        assert forall|i: int, j: int|
            0 <= i < f.len() && f[i] is App && 0 <= j < f[i]->App_1.len() implies f.contains(
            #[trigger] f[i]->App_1[j],
        ) by {
            let id = i as TermId;
            self.lemma_tree_app(id);
            let args = self.arg_ids(id);
            assert(f[i]->App_1[j] == self.tree(args[j]));
            assert(self.valid(args[j]));
        }
    }

    /// The forest grows with the arena.
    pub proof fn lemma_forest_extends(&self, older: &TermArena)
        requires
            older.wf(),
            self.extends(older),
        ensures
            older.forest().is_prefix_of(self.forest()),
    {
        self.lemma_extends(older);
        let a = older.forest();
        let b = self.forest();
        assert forall|i: int| 0 <= i < a.len() implies a[i] == b[i] by {
            assert(older.valid(i as TermId));
        }
        assert(a =~= b.subrange(0, a.len() as int));
    }

    /// An id that was added last is the tree that was added last.
    proof fn lemma_grown(&self, older: &TermArena, id: TermId)
        requires
            older.wf(),
            self.extends(older),
            id as int == older.data().len(),
            self.data().len() == id + 1,
            self.pool().len() == older.pool().len() + self.arg_ids(id).len(),
            self.node_ok(id),
            forall|i: TermId| i < id ==> #[trigger] self.node_ok(i),
            forall|i: TermId, j: TermId|
                i <= id && j <= id && i != j ==> #[trigger] self.node(i) != #[trigger] self.node(j),
            self.pool().len() <= u32::MAX,
        ensures
            self.forest() == with_tree(older.forest(), self.tree(id)),
            self.forest() == older.forest().push(self.tree(id)),
            self.pool().len() == arities(self.forest()),
    {
        self.lemma_forest_extends(older);
        let f = older.forest();
        let t = self.tree(id);
        assert(self.forest() =~= f.push(t));
        assert(f.push(t).drop_last() =~= f);
        assert(t is App ==> t->App_1.len() == self.arg_ids(id).len());
        if f.contains(t) {
            let i = choose|i: int| 0 <= i < f.len() && f[i] == t;
            self.lemma_extends(older);
            assert(self.tree(i as TermId) == t);
            self.lemma_distinct(i as TermId, id);
        }
    }

    proof fn lemma_distinct(&self, i: TermId, j: TermId)
        requires
            self.valid(i),
            self.valid(j),
            forall|id: TermId| self.valid(id) ==> #[trigger] self.node_ok(id),
            forall|i: TermId, j: TermId|
                self.valid(i) && self.valid(j) && i != j ==> #[trigger] self.node(i)
                    != #[trigger] self.node(j),
            self.tree(i) == self.tree(j),
        ensures
            i == j,
        decreases i,
    {
        assert(self.node_ok(i) && self.node_ok(j));
        if i != j {
            if let Node::App(s, args) = self.node(i) {
                let other = self.arg_ids(j);
                assert(self.tree(i)->App_1.len() == args.len());
                assert(self.tree(j)->App_1.len() == other.len());
                assert forall|k: int| 0 <= k < args.len() implies args[k] == other[k] by {
                    self.lemma_arg_ok(i, k);
                    self.lemma_arg_ok(j, k);
                    assert(self.tree(i)->App_1[k] == self.tree(args[k]));
                    assert(self.tree(j)->App_1[k] == self.tree(other[k]));
                    self.lemma_distinct(args[k], other[k]);
                }
                assert(args =~= other);
            }
            assert(self.node(i) == self.node(j));
        }
    }

    proof fn lemma_arg_ok(&self, id: TermId, k: int)
        requires
            self.valid(id),
            self.node_ok(id),
            0 <= k < self.arg_ids(id).len(),
        ensures
            self.arg_ids(id)[k] < id,
    {
        if let TermData::App(s, start, len) = self.data()[id as int] {
            assert(self.arg_ids(id)[k] == self.pool()[start + k]);
        }
    }

    /// The lengths of the two id spaces never exceed 32 bits.
    pub proof fn lemma_limits(&self)
        requires
            self.wf(),
        ensures
            self.data().len() <= u32::MAX,
            self.pool().len() <= u32::MAX,
    {
    }

    /// Equal ids are equal terms: two terms of one arena have the same id
    /// exactly when they are structurally identical.
    pub proof fn ids_are_trees(&self, i: TermId, j: TermId)
        requires
            self.wf(),
            self.valid(i),
            self.valid(j),
        ensures
            self.tree(i) == self.tree(j) <==> i == j,
        decreases i,
    {
        self.lemma_tree_app(i);
        self.lemma_tree_app(j);
        if self.tree(i) == self.tree(j) && i != j {
            if let Node::App(s, args) = self.node(i) {
                let other = self.arg_ids(j);
                assert(self.trees(args) == self.trees(other));
                self.lemma_args_below(i);
                self.lemma_args_below(j);
                assert forall|k: int| 0 <= k < args.len() implies args[k] == other[k] by {
                    assert(self.trees(args)[k] == self.trees(other)[k]);
                    self.ids_are_trees(args[k], other[k]);
                }
                assert(args =~= other);
            }
            assert(self.node(i) == self.node(j));
        }
    }

    /// Where numbers suffice for the forest with a variable, the variable is
    /// there or fits.
    pub(crate) proof fn lemma_room_for_var(&self, v: VarId)
        requires
            self.wf(),
            numbered(with_tree(self.forest(), Tree::Var(v))),
        ensures
            self.has_node(Node::Var(v)) || self.fits(0),
    {
        if !self.has_node(Node::Var(v)) {
            self.lemma_new_tree(Node::Var(v), Tree::Var(v));
        }
    }

    /// Where numbers suffice for the forest with an application, it is there
    /// or fits.
    pub(crate) proof fn lemma_room_for_app(&self, s: SymbolId, args: Seq<TermId>)
        requires
            self.wf(),
            self.all_valid(args),
            numbered(with_tree(self.forest(), Tree::App(s, self.trees(args)))),
        ensures
            self.has_node(Node::App(s, args)) || self.fits(args.len()),
    {
        if !self.has_node(Node::App(s, args)) {
            self.lemma_new_app(s, args);
        }
    }

    /// Arenas with the same forest name the same terms by the same ids.
    pub proof fn equal_forests_have_equal_ids(&self, other: &TermArena, i: TermId, j: TermId)
        requires
            self.wf(),
            other.wf(),
            self.forest() == other.forest(),
            self.valid(i),
            other.valid(j),
        ensures
            self.tree(i) == other.tree(j) <==> i == j,
    {
        self.lemma_forest();
        other.lemma_forest();
        assert(self.forest()[i as int] == self.tree(i));
        assert(other.forest()[j as int] == other.tree(j));
        assert(self.forest()[j as int] == self.tree(j));
        self.ids_are_trees(i, j);
    }

    /// The id of the variable `v`; a new one where the arena has none yet.
    pub fn mk_var(&mut self, v: VarId) -> (r: TermId)
        requires
            old(self).wf(),
            old(self).has_node(Node::Var(v)) || old(self).fits(0),
        ensures
            final(self).wf(),
            final(self).extends(old(self)),
            final(self).valid(r),
            final(self).node(r) == Node::Var(v),
            final(self).tree(r) == Tree::Var(v),
            final(self).forest() == with_tree(old(self).forest(), Tree::Var(v)),
            old(self).has_node(Node::Var(v)) ==> *final(self) == *old(self),
            !old(self).has_node(Node::Var(v)) ==> {
                &&& final(self).data().len() == old(self).data().len() + 1
                &&& final(self).pool() == old(self).pool()
            },
    {
        match self.try_mk_var(v) {
            Some(id) => id,
            None => 0,
        }
    }

    /// The id of `symbol(args)`, or `None` where a new term would not fit into
    /// the id spaces.
    pub(crate) fn try_mk_app(&mut self, symbol: SymbolId, args: &[TermId]) -> (r: Option<TermId>)
        requires
            old(self).wf(),
            old(self).all_valid(args@),
        ensures
            final(self).wf(),
            final(self).extends(old(self)),
            match r {
                Some(id) => {
                    &&& final(self).valid(id)
                    &&& final(self).node(id) == Node::App(symbol, args@)
                    &&& final(self).tree(id) == Tree::App(symbol, old(self).trees(args@))
                },
                None => {
                    &&& !old(self).has_node(Node::App(symbol, args@))
                    &&& !old(self).fits(args@.len())
                    &&& !numbered(
                        with_tree(
                            old(self).forest(),
                            Tree::App(symbol, old(self).trees(args@)),
                        ),
                    )
                },
            },
            r is Some ==> final(self).forest() == with_tree(
                old(self).forest(),
                Tree::App(symbol, old(self).trees(args@)),
            ),
            old(self).has_node(Node::App(symbol, args@)) || r is None ==> *final(self) == *old(
                self,
            ),
            !old(self).has_node(Node::App(symbol, args@)) && r is Some ==> {
                &&& final(self).data().len() == old(self).data().len() + 1
                &&& final(self).pool() == old(self).pool() + args@
            },
    {
        let key: u64 = app_key(symbol, args);
        if let Some(id) = self.find_app(key, symbol, args) {
            proof {
                self.lemma_tree_app(id);
                self.lemma_forest();
            }
            return Some(id);
        }
        proof {
            self.lemma_new_app(symbol, args@);
        }
        let start: usize = self.args_pool.len();
        if self.terms.len() >= u32::MAX as usize || args.len() > u32::MAX as usize - start {
            return None;
        }
        let id: TermId = self.terms.len() as TermId;
        self.args_pool.extend_from_slice(args);
        self.terms.push(TermData::App(symbol, start as u32, args.len() as u32));
        proof {
            assert(self.pool() =~= old(self).pool() + args@);
            assert(self.pool().subrange(start as int, start + args@.len()) =~= args@);
            assert(self.node(id) == Node::App(symbol, args@));
            assert forall|k: int| start <= k < start + args@.len() implies (
            #[trigger] self.pool()[k]) < id by {
                assert(self.pool()[k] == args@[k - start]);
            }
            self.lemma_pushed(old(self), id);
            self.lemma_grown(old(self), id);
        }
        let ghost grown = *self;
        self.index_last(key);
        proof {
            self.lemma_extends_trees(old(self), args@);
            self.lemma_same_forest(&grown);
            assert(self.wf());
            self.lemma_tree_app(id);
        }
        Some(id)
    }

    /// The id of `symbol(args)`; a new one where the arena has none yet.
    pub fn mk_app(&mut self, symbol: SymbolId, args: &[TermId]) -> (r: TermId)
        requires
            old(self).wf(),
            old(self).all_valid(args@),
            old(self).has_node(Node::App(symbol, args@)) || old(self).fits(args@.len()),
        ensures
            final(self).wf(),
            final(self).extends(old(self)),
            final(self).valid(r),
            final(self).node(r) == Node::App(symbol, args@),
            final(self).tree(r) == Tree::App(symbol, old(self).trees(args@)),
            final(self).forest() == with_tree(
                old(self).forest(),
                Tree::App(symbol, old(self).trees(args@)),
            ),
            old(self).has_node(Node::App(symbol, args@)) ==> *final(self) == *old(self),
            !old(self).has_node(Node::App(symbol, args@)) ==> {
                &&& final(self).data().len() == old(self).data().len() + 1
                &&& final(self).pool() == old(self).pool() + args@
            },
    {
        match self.try_mk_app(symbol, args) {
            Some(id) => id,
            None => 0,
        }
    }

    /// The id of the constant `sym`.
    pub fn mk_const(&mut self, sym: SymbolId) -> (r: TermId)
        requires
            old(self).wf(),
            old(self).has_node(Node::App(sym, Seq::empty())) || old(self).fits(0),
        ensures
            final(self).wf(),
            final(self).extends(old(self)),
            final(self).valid(r),
            final(self).node(r) == Node::App(sym, Seq::empty()),
            final(self).tree(r) == Tree::App(sym, Seq::empty()),
            final(self).forest() == with_tree(
                old(self).forest(),
                Tree::App(sym, Seq::empty()),
            ),
            old(self).has_node(Node::App(sym, Seq::empty())) ==> *final(self) == *old(self),
            !old(self).has_node(Node::App(sym, Seq::empty())) ==> {
                &&& final(self).data().len() == old(self).data().len() + 1
                &&& final(self).pool() == old(self).pool()
            },
    {
        let none: [TermId; 0] = [];
        assert(none@ =~= Seq::empty());
        assert(self.trees(none@) =~= Seq::empty());
        self.mk_app(sym, &none)
    }

    /// The stored description of a term.
    pub fn get(&self, id: TermId) -> (r: TermData)
        requires
            self.valid(id),
        ensures
            r == self.data()[id as int],
    {
        self.terms[id as usize]
    }

    /// The ids of the arguments; empty for variables and constants.
    pub fn args(&self, id: TermId) -> (r: &[TermId])
        requires
            self.wf(),
            self.valid(id),
        ensures
            r@ == self.arg_ids(id),
            self.all_valid(r@),
            forall|i: int| 0 <= i < r@.len() ==> (#[trigger] r@[i]) < id,
    {
        proof {
            assert(self.node_ok(id));
            self.lemma_args_below(id);
        }
        match self.get(id) {
            TermData::App(_, start, len) => vstd::slice::slice_subrange(
                self.args_pool.as_slice(),
                start as usize,
                start as usize + len as usize,
            ),
            TermData::Var(_) => vstd::slice::slice_subrange(self.args_pool.as_slice(), 0, 0),
        }
    }

    /// Whether the term is a variable.
    pub fn is_var(&self, id: TermId) -> (r: bool)
        requires
            self.valid(id),
        ensures
            r == (self.node(id) is Var),
    {
        matches!(self.get(id), TermData::Var(_))
    }

    /// Whether the term is an application.
    pub fn is_app(&self, id: TermId) -> (r: bool)
        requires
            self.valid(id),
        ensures
            r == (self.node(id) is App),
    {
        matches!(self.get(id), TermData::App(_, _, _))
    }

    /// The symbol of an application, `None` for a variable.
    pub fn symbol_of(&self, id: TermId) -> (r: Option<SymbolId>)
        requires
            self.valid(id),
        ensures
            r == match self.node(id) {
                Node::Var(_) => None,
                Node::App(s, _) => Some(s),
            },
    {
        match self.get(id) {
            TermData::App(s, _, _) => Some(s),
            TermData::Var(_) => None,
        }
    }

    proof fn lemma_depth_bound(&self, id: TermId)
        requires
            self.wf(),
            self.valid(id),
        ensures
            self.tree(id).depth() <= id,
        decreases id, self.arg_ids(id).len() + 1,
    {
        self.lemma_tree_app(id);
        if let Node::App(_, args) = self.node(id) {
            self.lemma_args_below(id);
            self.lemma_deepest_bound(id, args.len());
        }
    }

    proof fn lemma_deepest_bound(&self, id: TermId, k: nat)
        requires
            self.wf(),
            self.valid(id),
            k <= self.arg_ids(id).len(),
        ensures
            k > 0 ==> deepest(self.trees(self.arg_ids(id)), k) < id,
        decreases id, k,
    {
        if k > 0 {
            let args = self.arg_ids(id);
            self.lemma_args_below(id);
            self.lemma_depth_bound(args[k - 1]);
            self.lemma_deepest_bound(id, (k - 1) as nat);
            if k == 1 {
                assert(deepest(self.trees(args), 0) == 0);
            }
        }
    }

    /// Height of the term; variables and constants have depth 0.
    pub fn depth(&self, id: TermId) -> (r: u32)
        requires
            self.wf(),
            self.valid(id),
        ensures
            r == self.tree(id).depth(),
        decreases id,
    {
        proof {
            self.lemma_tree_app(id);
        }
        if self.is_var(id) {
            return 0;
        }
        let args = self.args(id);
        let mut best: u32 = 0;
        let mut i: usize = 0;
        while i < args.len()
            invariant
                self.wf(),
                self.valid(id),
                args@ == self.arg_ids(id),
                self.all_valid(args@),
                forall|k: int| 0 <= k < args@.len() ==> (#[trigger] args@[k]) < id,
                i <= args@.len(),
                best == deepest(self.trees(args@), i as nat),
            decreases args@.len() - i,
        {
            let d: u32 = self.depth(args[i]);
            if d > best {
                best = d;
            }
            i += 1;
        }
        if args.len() == 0 {
            0
        } else {
            proof {
                self.lemma_deepest_bound(id, args@.len());
            }
            best + 1
        }
    }

    /// Number of symbol and variable occurrences, counting a shared subterm
    /// each time it occurs.
    pub fn size(&self, id: TermId) -> (r: u32)
        requires
            self.wf(),
            self.valid(id),
            self.tree(id).size() <= u32::MAX,
        ensures
            r == self.tree(id).size(),
    {
        match self.try_size(id, u32::MAX) {
            Some(n) => n,
            None => 0,
        }
    }

    /// The size of the term where it is at most `limit`.
    pub(crate) fn try_size(&self, id: TermId, limit: u32) -> (r: Option<u32>)
        requires
            self.wf(),
            self.valid(id),
        ensures
            match r {
                Some(n) => n == self.tree(id).size() && n <= limit,
                None => self.tree(id).size() > limit,
            },
        decreases id,
    {
        proof {
            self.lemma_tree_app(id);
        }
        if limit == 0 {
            return None;
        }
        if self.is_var(id) {
            return Some(1);
        }
        let args = self.args(id);
        let ghost ts = self.trees(args@);
        let mut total: u32 = 1;
        let mut i: usize = 0;
        while i < args.len()
            invariant
                self.wf(),
                self.valid(id),
                self.all_valid(args@),
                forall|k: int| 0 <= k < args@.len() ==> (#[trigger] args@[k]) < id,
                ts == self.trees(args@),
                self.tree(id).size() == 1 + sizes(ts, ts.len()),
                i <= args@.len(),
                total == 1 + sizes(ts, i as nat),
                total <= limit,
            decreases args@.len() - i,
        {
            proof {
                lemma_sizes_monotonic(ts, (i + 1) as nat, ts.len());
            }
            match self.try_size(args[i], limit - total) {
                Some(n) => {
                    total = total + n;
                },
                None => {
                    return None;
                },
            }
            i += 1;
        }
        Some(total)
    }

    /// Writes the term as text: `X3` for variable 3, `name(arg, arg)` for an
    /// application, and the bare name for a constant.
    pub fn display(&self, id: TermId, symbols: &SymbolTable) -> (r: String)
        requires
            self.wf(),
            self.valid(id),
            named(self.tree(id), symbols@.len()),
        ensures
            r@ == term_text(self.tree(id), symbols@),
        decreases id,
    {
        let mut out = String::new();
        self.push_term(id, symbols, &mut out);
        assert(out@ =~= term_text(self.tree(id), symbols@));
        out
    }

    /// Appends the text of the term.
    pub(crate) fn push_term(&self, id: TermId, symbols: &SymbolTable, out: &mut String)
        requires
            self.wf(),
            self.valid(id),
            named(self.tree(id), symbols@.len()),
        ensures
            final(out)@ == old(out)@ + term_text(self.tree(id), symbols@),
        decreases id,
    {
        proof {
            self.lemma_tree_app(id);
        }
        match self.get(id) {
            TermData::Var(v) => {
                out.append("X");
                push_decimal(out, v as u64);
                assert(out@ =~= old(out)@ + ("X"@ + decimal(v as nat)));
            },
            TermData::App(s, _, _) => {
                let args = self.args(id);
                let ghost ts = self.trees(args@);
                assert(self.tree(id) == Tree::App(s, ts));
                proof {
                    lemma_named_args(s, ts, symbols@.len());
                }
                out.append(symbols.name(s));
                if args.len() == 0 {
                    return;
                }
                out.append("(");
                let ghost head = old(out)@ + symbols@[s as int] + "("@;
                let mut i: usize = 0;
                while i < args.len()
                    invariant
                        self.wf(),
                        self.valid(id),
                        self.all_valid(args@),
                        forall|k: int| 0 <= k < args@.len() ==> (#[trigger] args@[k]) < id,
                        ts == self.trees(args@),
                        forall|k: int| 0 <= k < ts.len() ==> named(#[trigger] ts[k], symbols@.len()),
                        i <= args@.len(),
                        out@ == head + terms_text(ts, i as nat, symbols@),
                    decreases args@.len() - i,
                {
                    if i > 0 {
                        out.append(", ");
                    }
                    assert(ts[i as int] == self.tree(args@[i as int]));
                    self.push_term(args[i], symbols, out);
                    assert(out@ =~= head + terms_text(ts, (i + 1) as nat, symbols@));
                    i += 1;
                }
                out.append(")");
                assert(out@ =~= old(out)@ + term_text(self.tree(id), symbols@));
            },
        }
    }
}

impl Default for TermArena {
    fn default() -> (r: Self)
        ensures
            r.wf(),
            r.data().len() == 0,
            r.pool().len() == 0,
    {
        TermArena::new()
    }
}

/// Whether every symbol of the tree is below `n`.
pub open spec fn named(t: Tree, n: nat) -> bool
    decreases t,
{
    match t {
        Tree::Var(_) => true,
        Tree::App(s, args) => {
            &&& s < n
            &&& forall|i: int| 0 <= i < args.len() ==> named(#[trigger] args[i], n)
        },
    }
}

/// The arguments of a tree have the tree's names.
pub proof fn lemma_named_args(s: SymbolId, args: Seq<Tree>, n: nat)
    requires
        named(Tree::App(s, args), n),
    ensures
        s < n,
        forall|i: int| 0 <= i < args.len() ==> named(#[trigger] args[i], n),
{
    let t = Tree::App(s, args);
    assert(t->App_1 == args);
    assert(named(t, n));
    assert forall|i: int| 0 <= i < args.len() implies named(#[trigger] args[i], n) by {
        assert(named(t->App_1[i], n));
    }
}

/// The text of a tree, with symbols written by their names.
pub open spec fn term_text(t: Tree, names: Seq<Seq<char>>) -> Seq<char>
    decreases t, 0nat,
{
    match t {
        Tree::Var(v) => "X"@ + decimal(v as nat),
        Tree::App(s, args) => if args.len() == 0 {
            names[s as int]
        } else {
            names[s as int] + "("@ + terms_text(args, args.len(), names) + ")"@
        },
    }
}

/// The texts of the first `k` trees, separated by commas.
pub open spec fn terms_text(ts: Seq<Tree>, k: nat, names: Seq<Seq<char>>) -> Seq<char>
    decreases ts, k,
{
    if k == 0 || k > ts.len() {
        Seq::empty()
    } else if k == 1 {
        term_text(ts[0], names)
    } else {
        terms_text(ts, (k - 1) as nat, names) + ", "@ + term_text(ts[k - 1], names)
    }
}

/// Numbers names: equal names get equal ids, in order of first appearance.
#[derive(Debug)]
pub struct SymbolTable {
    names: Vec<String>,
    index: HashMap<u64, Vec<SymbolId>>,
}

spec fn name_key(name: Seq<char>) -> u64
    decreases name.len(),
{
    if name.len() == 0 {
        VAR_SEED
    } else {
        mix_spec(name_key(name.drop_last()), name.last() as u32)
    }
}

fn key_of_name(name: &str) -> (r: u64)
    ensures
        r == name_key(name@),
{
    let chars: Vec<char> = chars_of(name);
    let mut h: u64 = VAR_SEED;
    let mut i: usize = 0;
    while i < chars.len()
        invariant
            i <= chars@.len(),
            h == name_key(chars@.take(i as int)),
        decreases chars@.len() - i,
    {
        assert(chars@.take(i + 1).drop_last() =~= chars@.take(i as int));
        h = mix(h, chars[i] as u32);
        i += 1;
    }
    assert(chars@.take(i as int) =~= chars@);
    h
}

impl View for SymbolTable {
    type V = Seq<Seq<char>>;

    closed spec fn view(&self) -> Seq<Seq<char>> {
        Seq::new(self.names@.len(), |i: int| self.names@[i]@)
    }
}

impl SymbolTable {
    spec fn indexed(&self) -> bool {
        &&& forall|id: int|
            0 <= id < self.names@.len() ==> {
                let key = name_key(#[trigger] self.names@[id]@);
                &&& self.index@.contains_key(key)
                &&& self.index@[key]@.contains(id as SymbolId)
            }
        &&& forall|key: u64, k: int|
            self.index@.contains_key(key) && 0 <= k < self.index@[key]@.len()
                ==> (#[trigger] self.index@[key]@[k]) < self.names@.len()
    }

    /// The table's invariant: no name occurs twice, and the index finds every
    /// name.
    pub closed spec fn wf(&self) -> bool {
        &&& self.names@.len() <= u32::MAX
        &&& forall|i: int, j: int|
            0 <= i < j < self.names@.len() ==> #[trigger] self.names@[i]@
                != #[trigger] self.names@[j]@
        &&& self.indexed()
    }

    /// No name has two ids.
    pub proof fn names_are_distinct(&self, i: int, j: int)
        requires
            self.wf(),
            0 <= i < self@.len(),
            0 <= j < self@.len(),
        ensures
            self@[i] == self@[j] <==> i == j,
    {
        if i < j {
            assert(self.names@[i]@ != self.names@[j]@);
        } else if j < i {
            assert(self.names@[j]@ != self.names@[i]@);
        }
    }

    /// An empty table.
    pub fn new() -> (r: Self)
        ensures
            r.wf(),
            r@ == Seq::<Seq<char>>::empty(),
    {
        let r = SymbolTable { names: Vec::new(), index: HashMap::new() };
        assert(r@ =~= Seq::<Seq<char>>::empty());
        r
    }

    fn find(&self, key: u64, name: &String) -> (r: Option<SymbolId>)
        requires
            self.wf(),
            key == name_key(name@),
        ensures
            match r {
                Some(id) => id < self@.len() && self@[id as int] == name@,
                None => !self@.contains(name@),
            },
    {
        match self.index.get(&key) {
            None => {
                assert forall|i: int| 0 <= i < self@.len() implies self@[i] != name@ by {
                    assert(self@[i] == self.names@[i]@);
                }
                None
            },
            Some(bucket) => {
                let mut i: usize = 0;
                while i < bucket.len()
                    invariant
                        self.wf(),
                        key == name_key(name@),
                        self.index@.contains_key(key),
                        *bucket == self.index@[key],
                        i <= bucket@.len(),
                        forall|k: int|
                            0 <= k < i ==> self.names@[(#[trigger] bucket@[k]) as int]@ != name@,
                    decreases bucket@.len() - i,
                {
                    let id: SymbolId = bucket[i];
                    assert(self.index@[key]@[i as int] < self.names@.len());
                    if self.names[id as usize] == *name {
                        return Some(id);
                    }
                    i += 1;
                }
                assert forall|i: int| 0 <= i < self@.len() implies self@[i] != name@ by {
                    assert(self@[i] == self.names@[i]@);
                }
                None
            },
        }
    }

    /// The id of `name`; the next free one where the name is new.
    pub fn intern(&mut self, name: &str) -> (r: SymbolId)
        requires
            old(self).wf(),
            old(self)@.contains(name@) || old(self)@.len() < u32::MAX,
        ensures
            final(self).wf(),
            r < final(self)@.len(),
            final(self)@[r as int] == name@,
            final(self)@ == if old(self)@.contains(name@) {
                old(self)@
            } else {
                old(self)@.push(name@)
            },
    {
        let owned: String = name.to_owned();
        let key: u64 = key_of_name(name);
        if let Some(id) = self.find(key, &owned) {
            return id;
        }
        let id: SymbolId = self.names.len() as SymbolId;
        let mut bucket: Vec<SymbolId> = match self.index.remove(&key) {
            Some(b) => b,
            None => Vec::new(),
        };
        let ghost before = bucket@;
        bucket.push(id);
        self.index.insert(key, bucket);
        self.names.push(owned);
        proof {
            let now = self.index@[key]@;
            assert(now == before.push(id));
            assert(now[now.len() - 1] == id);
            assert(self@ =~= old(self)@.push(name@));
            assert forall|i: int| 0 <= i < self.names@.len() implies {
                let k = name_key(#[trigger] self.names@[i]@);
                &&& self.index@.contains_key(k)
                &&& self.index@[k]@.contains(i as SymbolId)
            } by {
                if i < id {
                    let k = name_key(old(self).names@[i]@);
                    assert(self.names@[i]@ == old(self).names@[i]@);
                    if k == key {
                        let j = choose|j: int|
                            0 <= j < before.len() && before[j] == i as SymbolId;
                        assert(now[j] == i as SymbolId);
                    }
                }
            }
            assert forall|i: int, j: int| 0 <= i < j < self.names@.len() implies
                #[trigger] self.names@[i]@ != #[trigger] self.names@[j]@ by {
                assert(old(self)@[i] == self.names@[i]@);
                if j < id {
                    assert(old(self).names@[i]@ != old(self).names@[j]@);
                }
            }
            assert(self.wf());
        }
        id
    }

    /// The name with this id.
    pub fn name(&self, id: SymbolId) -> (r: &str)
        requires
            id < self@.len(),
        ensures
            r@ == self@[id as int],
    {
        self.names[id as usize].as_str()
    }

    /// Number of names.
    pub fn len(&self) -> (r: usize)
        ensures
            r == self@.len(),
    {
        self.names.len()
    }

    /// Whether the table holds no name.
    pub fn is_empty(&self) -> (r: bool)
        ensures
            r == (self@.len() == 0),
    {
        self.names.len() == 0
    }
}

impl Default for SymbolTable {
    fn default() -> (r: Self)
        ensures
            r.wf(),
            r@ == Seq::<Seq<char>>::empty(),
    {
        SymbolTable::new()
    }
}

} // verus!
