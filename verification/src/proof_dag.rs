//! The derivations of a proof search as a directed graph: checks on it, and
//! the part of it that a refutation needs.
use crate::clause::{parents_first, Clause, ClauseId, ClauseView, InferenceRule, RuleView};
use crate::graph::{
    acyclic, closed, cycle_path, depth_first, falls, find_cycle, graph_of, post_order,
    post_order_lists_reached, reaches, Graph,
};
use crate::term::{TermArena, TermId, VarId};
use crate::text::{decimal, number_list, push_decimal, push_number_list};
use crate::unify::{lists, Substitution};
use std::collections::{HashMap, HashSet};
use vstd::prelude::*;

verus! {

broadcast use vstd::std_specs::hash::group_hash_axioms;

/// Clauses by id, with their derivations.
#[derive(Debug)]
pub struct ProofDag {
    clauses: Vec<Clause>,
    index: HashMap<ClauseId, usize>,
}

/// Why a set of derivations is not a proof.
#[derive(Debug)]
pub enum DagError {
    /// A parent of a clause is not there.
    UnknownParent { clause: ClauseId, missing: ClauseId },
    /// A walk from child to parent that ends at a clause it has been at.
    Cycle(Vec<ClauseId>),
    /// There is no empty clause.
    NoBottom,
    /// A clause with this id is already there.
    DuplicateId(ClauseId),
    /// The declared parents of a clause are not those its rule names.
    ParentsMismatch {
        clause: ClauseId,
        declared: Vec<ClauseId>,
        implied_by_rule: Vec<ClauseId>,
    },
}

/// An error with its contents as mathematical values.
#[verifier::ext_equal]
pub enum DagErrorView {
    UnknownParent { clause: ClauseId, missing: ClauseId },
    Cycle(Seq<ClauseId>),
    NoBottom,
    DuplicateId(ClauseId),
    ParentsMismatch {
        clause: ClauseId,
        declared: Seq<ClauseId>,
        implied_by_rule: Seq<ClauseId>,
    },
}

impl View for DagError {
    type V = DagErrorView;

    open spec fn view(&self) -> DagErrorView {
        match *self {
            DagError::UnknownParent { clause, missing } => DagErrorView::UnknownParent {
                clause,
                missing,
            },
            DagError::Cycle(path) => DagErrorView::Cycle(path@),
            DagError::NoBottom => DagErrorView::NoBottom,
            DagError::DuplicateId(id) => DagErrorView::DuplicateId(id),
            DagError::ParentsMismatch { clause, declared, implied_by_rule } =>
            DagErrorView::ParentsMismatch {
                clause,
                declared: declared@,
                implied_by_rule: implied_by_rule@,
            },
        }
    }
}

/// The text of an error.
pub open spec fn error_text(e: DagErrorView) -> Seq<char> {
    match e {
        DagErrorView::UnknownParent { clause, missing } => "clause "@ + decimal(clause as nat)
            + " references unknown parent "@ + decimal(missing as nat),
        DagErrorView::Cycle(path) => "cycle detected: "@ + number_list(path),
        DagErrorView::NoBottom => "no clause with empty literal set (⊥) found in DAG"@,
        DagErrorView::DuplicateId(id) => "duplicate clause id "@ + decimal(id as nat),
        DagErrorView::ParentsMismatch { clause, declared, implied_by_rule } => "clause "@
            + decimal(clause as nat) + ": inference.parents = "@ + number_list(declared)
            + " but rule implies "@ + number_list(implied_by_rule),
    }
}

impl DagError {
    /// The error as text.
    pub fn describe(&self) -> (r: String)
        ensures
            r@ == error_text(self@),
    {
        let mut out = String::new();
        match self {
            DagError::UnknownParent { clause, missing } => {
                out.append("clause ");
                push_decimal(&mut out, *clause as u64);
                out.append(" references unknown parent ");
                push_decimal(&mut out, *missing as u64);
            },
            DagError::Cycle(path) => {
                out.append("cycle detected: ");
                push_number_list(&mut out, path.as_slice());
            },
            DagError::NoBottom => {
                out.append("no clause with empty literal set (⊥) found in DAG");
            },
            DagError::DuplicateId(id) => {
                out.append("duplicate clause id ");
                push_decimal(&mut out, *id as u64);
            },
            DagError::ParentsMismatch { clause, declared, implied_by_rule } => {
                out.append("clause ");
                push_decimal(&mut out, *clause as u64);
                out.append(": inference.parents = ");
                push_number_list(&mut out, declared.as_slice());
                out.append(" but rule implies ");
                push_number_list(&mut out, implied_by_rule.as_slice());
            },
        }
        assert(out@ =~= error_text(self@));
        out
    }
}

/// The parents that a rule names, where it names them.
pub open spec fn implied_parents(rule: RuleView) -> Option<Seq<ClauseId>> {
    match rule {
        RuleView::Input => Some(Seq::empty()),
        RuleView::Resolution { left, right, .. } => Some(seq![left, right]),
        RuleView::Factoring { parent, .. } => Some(seq![parent]),
        _ => None,
    }
}

fn parents_implied_by_rule(rule: &InferenceRule) -> (r: Option<Vec<ClauseId>>)
    ensures
        match r {
            Some(v) => implied_parents(rule@) == Some(v@),
            None => implied_parents(rule@) is None,
        },
{
    let mut v: Vec<ClauseId> = Vec::new();
    match rule {
        InferenceRule::Input => {
            assert(v@ =~= Seq::empty());
            Some(v)
        },
        InferenceRule::Resolution { left, right, .. } => {
            v.push(*left);
            v.push(*right);
            assert(v@ =~= seq![*left, *right]);
            Some(v)
        },
        InferenceRule::Factoring { parent, .. } => {
            v.push(*parent);
            assert(v@ =~= seq![*parent]);
            Some(v)
        },
        _ => None,
    }
}

fn all_in(a: &[ClauseId], b: &[ClauseId]) -> (r: bool)
    ensures
        r == a@.to_set().subset_of(b@.to_set()),
{
    let mut i: usize = 0;
    while i < a.len()
        invariant
            i <= a@.len(),
            forall|k: int| 0 <= k < i ==> b@.contains(#[trigger] a@[k]),
        decreases a@.len() - i,
    {
        let mut j: usize = 0;
        let mut there: bool = false;
        while j < b.len() && !there
            invariant
                i < a@.len(),
                j <= b@.len(),
                there ==> b@.contains(a@[i as int]),
                !there ==> forall|k: int| 0 <= k < j ==> b@[k] != a@[i as int],
            decreases b@.len() - j, !there as int,
        {
            if b[j] == a[i] {
                assert(b@[j as int] == a@[i as int]);
                there = true;
            } else {
                j += 1;
            }
        }
        if !there {
            assert(a@.to_set().contains(a@[i as int]));
            assert(!b@.to_set().contains(a@[i as int]));
            return false;
        }
        i += 1;
    }
    assert(a@.to_set().subset_of(b@.to_set())) by {
        assert forall|x: ClauseId| a@.to_set().contains(x) implies b@.to_set().contains(x) by {
            let k = choose|k: int| 0 <= k < a@.len() && a@[k] == x;
            assert(b@.contains(a@[k]));
        }
    }
    true
}

/// Whether two lists have the same members.
fn same_parent_set(a: &[ClauseId], b: &[ClauseId]) -> (r: bool)
    ensures
        r == (a@.to_set() == b@.to_set()),
{
    let r: bool = all_in(a, b) && all_in(b, a);
    proof {
        if r {
            assert(a@.to_set() =~= b@.to_set());
        }
    }
    r
}

/// Whether a clause with this id is there.
pub open spec fn has_id(dag: Seq<ClauseView>, id: ClauseId) -> bool {
    exists|i: int| 0 <= i < dag.len() && (#[trigger] dag[i]).id == id
}

/// The position of the clause with this id.
pub open spec fn pos(dag: Seq<ClauseView>, id: ClauseId) -> usize {
    (choose|i: int| 0 <= i < dag.len() && (#[trigger] dag[i]).id == id) as usize
}

/// Whether no id occurs twice.
pub open spec fn distinct(dag: Seq<ClauseView>) -> bool {
    forall|i: int, j: int|
        0 <= i < j < dag.len() ==> (#[trigger] dag[i]).id != (#[trigger] dag[j]).id
}

/// The first of the parents from position `j` on that is not there.
pub open spec fn first_unknown(
    dag: Seq<ClauseView>,
    parents: Seq<ClauseId>,
    j: nat,
) -> Option<ClauseId>
    decreases parents.len() - j,
{
    if j >= parents.len() {
        None
    } else if !has_id(dag, parents[j as int]) {
        Some(parents[j as int])
    } else {
        first_unknown(dag, parents, j + 1)
    }
}

/// What is wrong with the parents of a clause: one is not there, or they are
/// not those that the rule names.
pub open spec fn fault(dag: Seq<ClauseView>, c: ClauseView) -> Option<DagErrorView> {
    match first_unknown(dag, c.inference.parents, 0) {
        Some(missing) => Some(DagErrorView::UnknownParent { clause: c.id, missing }),
        None => match implied_parents(c.inference.rule) {
            Some(implied) => if c.inference.parents.to_set() != implied.to_set() {
                Some(
                    DagErrorView::ParentsMismatch {
                        clause: c.id,
                        declared: c.inference.parents,
                        implied_by_rule: implied,
                    },
                )
            } else {
                None
            },
            None => None,
        },
    }
}

/// The positions of the parents that are there.
pub open spec fn positions(dag: Seq<ClauseView>, parents: Seq<ClauseId>) -> Seq<usize>
    decreases parents.len(),
{
    if parents.len() == 0 {
        Seq::empty()
    } else if has_id(dag, parents.last()) {
        positions(dag, parents.drop_last()).push(pos(dag, parents.last()))
    } else {
        positions(dag, parents.drop_last())
    }
}

/// The graph in which every clause points to its parents, by position.
pub open spec fn dag_graph(dag: Seq<ClauseView>) -> Graph {
    Seq::new(dag.len(), |i: int| positions(dag, dag[i].inference.parents))
}

/// Whether all parents of a clause are there.
pub open spec fn parents_known(dag: Seq<ClauseView>, c: ClauseView) -> bool {
    forall|j: int|
        0 <= j < c.inference.parents.len() ==> has_id(dag, #[trigger] c.inference.parents[j])
}

/// Whether every clause has its parents, those that its rule names, and no
/// clause is its own ancestor.
pub open spec fn valid(dag: Seq<ClauseView>) -> bool {
    &&& forall|i: int| 0 <= i < dag.len() ==> fault(dag, #[trigger] dag[i]) is None
    &&& acyclic(dag_graph(dag))
}

/// A walk from child to parent that ends at a clause it has been at before.
pub open spec fn cycle_of_ids(dag: Seq<ClauseView>, path: Seq<ClauseId>) -> bool {
    &&& path.len() >= 2
    &&& forall|i: int| 0 <= i < path.len() ==> has_id(dag, #[trigger] path[i])
    &&& forall|i: int|
        0 <= i < path.len() - 1 ==> dag[pos(
            dag,
            #[trigger] path[i],
        ) as int].inference.parents.contains(path[i + 1])
    &&& exists|i: int| 0 <= i < path.len() - 1 && #[trigger] path[i] == path.last()
}

/// The first empty clause.
pub open spec fn first_empty(dag: Seq<ClauseView>, i: nat) -> Option<ClauseId>
    decreases dag.len() - i,
{
    if i >= dag.len() {
        None
    } else if dag[i as int].literals.len() == 0 {
        Some(dag[i as int].id)
    } else {
        first_empty(dag, i + 1)
    }
}

/// Whether the clause `id` and its ancestors have all their parents.
pub open spec fn rooted(dag: Seq<ClauseView>, id: ClauseId) -> bool {
    forall|x: usize|
        x < dag.len() && #[trigger] reaches(dag_graph(dag), pos(dag, id), x) ==> parents_known(
            dag,
            dag[x as int],
        )
}

/// The clause `id` and its ancestors in the order in which a depth-first
/// search through the parents leaves them.
pub open spec fn relevant(dag: Seq<ClauseView>, id: ClauseId) -> Seq<ClauseView> {
    let order = post_order(dag_graph(dag), pos(dag, id));
    Seq::new(order.len(), |i: int| dag[order[i] as int])
}

/// The position of an id is where it stands.
pub proof fn lemma_pos(dag: Seq<ClauseView>, i: int)
    requires
        distinct(dag),
        0 <= i < dag.len() <= usize::MAX,
    ensures
        has_id(dag, dag[i].id),
        pos(dag, dag[i].id) == i,
{
    let id = dag[i].id;
    let k = choose|k: int| 0 <= k < dag.len() && (#[trigger] dag[k]).id == id;
    assert(k == i) by {
        if k < i {
            assert(dag[k].id != dag[i].id);
        } else if i < k {
            assert(dag[i].id != dag[k].id);
        }
    }
}

/// The position of an id that is there.
pub proof fn lemma_has(dag: Seq<ClauseView>, id: ClauseId)
    requires
        has_id(dag, id),
        dag.len() <= usize::MAX,
    ensures
        pos(dag, id) < dag.len(),
        dag[pos(dag, id) as int].id == id,
{
    let k = choose|k: int| 0 <= k < dag.len() && (#[trigger] dag[k]).id == id;
    assert(pos(dag, id) == k as usize);
}

/// Known positions are in range and stand for parents.
pub proof fn lemma_positions(dag: Seq<ClauseView>, parents: Seq<ClauseId>)
    requires
        dag.len() <= usize::MAX,
    ensures
        forall|j: int|
            0 <= j < positions(dag, parents).len() ==> {
                let p = #[trigger] positions(dag, parents)[j];
                p < dag.len() && parents.contains(dag[p as int].id)
            },
        (forall|j: int| 0 <= j < parents.len() ==> has_id(dag, #[trigger] parents[j])) ==> positions(
            dag,
            parents,
        ) == Seq::new(parents.len(), |j: int| pos(dag, parents[j])),
    decreases parents.len(),
{
    if parents.len() > 0 {
        let rest = parents.drop_last();
        lemma_positions(dag, rest);
        let ps = positions(dag, parents);
        if has_id(dag, parents.last()) {
            lemma_has(dag, parents.last());
        }
        assert forall|j: int| 0 <= j < ps.len() implies {
            let p = #[trigger] ps[j];
            p < dag.len() && parents.contains(dag[p as int].id)
        } by {
            if j < positions(dag, rest).len() {
                let p = positions(dag, rest)[j];
                assert(ps[j] == p);
                let i = choose|i: int| 0 <= i < rest.len() && rest[i] == dag[p as int].id;
                assert(parents[i] == dag[p as int].id);
            } else {
                assert(parents[parents.len() - 1] == parents.last());
            }
        }
        if forall|j: int| 0 <= j < parents.len() ==> has_id(dag, #[trigger] parents[j]) {
            assert forall|j: int| 0 <= j < rest.len() implies has_id(dag, #[trigger] rest[j]) by {
                assert(rest[j] == parents[j]);
            }
            assert(has_id(dag, parents[parents.len() - 1]));
            assert(ps =~= Seq::new(parents.len(), |j: int| pos(dag, parents[j])));
        }
    } else {
        assert(positions(dag, parents) =~= Seq::new(parents.len(), |j: int| pos(dag, parents[j])));
    }
}

/// All edges of the graph stay inside it.
pub proof fn lemma_dag_closed(dag: Seq<ClauseView>)
    requires
        dag.len() <= usize::MAX,
    ensures
        closed(dag_graph(dag)),
{
    let g = dag_graph(dag);
    assert forall|k: int, j: int| 0 <= k < g.len() && 0 <= j < g[k].len() implies
        #[trigger] g[k][j] < g.len() by {
        lemma_positions(dag, dag[k].inference.parents);
    }
}

proof fn lemma_first_unknown(dag: Seq<ClauseView>, parents: Seq<ClauseId>, j: nat)
    ensures
        first_unknown(dag, parents, j) is None <==> forall|k: int|
            j <= k < parents.len() ==> has_id(dag, #[trigger] parents[k]),
        first_unknown(dag, parents, j) matches Some(m) ==> parents.contains(m) && !has_id(dag, m),
    decreases parents.len() - j,
{
    if j < parents.len() {
        lemma_first_unknown(dag, parents, j + 1);
        if has_id(dag, parents[j as int]) {
            assert(parents[j as int] == parents[j as int]);
        } else {
            assert(parents.contains(parents[j as int]));
        }
    }
}

impl View for ProofDag {
    type V = Seq<ClauseView>;

    closed spec fn view(&self) -> Seq<ClauseView> {
        Seq::new(self.clauses@.len(), |i: int| self.clauses@[i]@)
    }
}

impl Clone for ProofDag {
    fn clone(&self) -> (r: Self)
        ensures
            r@ == self@,
            self.wf() ==> r.wf(),
    {
        let mut clauses: Vec<Clause> = Vec::new();
        let mut i: usize = 0;
        while i < self.clauses.len()
            invariant
                i <= self.clauses@.len(),
                clauses@.len() == i,
                forall|k: int| 0 <= k < i ==> (#[trigger] clauses@[k])@ == self.clauses@[k]@,
            decreases self.clauses@.len() - i,
        {
            clauses.push(self.clauses[i].clone());
            i += 1;
        }
        let r = ProofDag { clauses, index: self.index.clone() };
        assert(r@ =~= self@);
        r
    }
}

impl ProofDag {
    /// The invariant: no id occurs twice, and the index finds every id.
    pub closed spec fn wf(&self) -> bool {
        &&& distinct(self@)
        &&& self.clauses@.len() <= usize::MAX
        &&& forall|i: int|
            0 <= i < self@.len() ==> self.index@.contains_key((#[trigger] self@[i]).id)
                && self.index@[self@[i].id] == i
        &&& forall|id: ClauseId| #[trigger] self.index@.contains_key(id) ==> has_id(self@, id)
    }

    /// No id occurs twice.
    pub proof fn ids_are_distinct(&self)
        requires
            self.wf(),
        ensures
            distinct(self@),
            self@.len() <= usize::MAX,
    {
    }

    /// No clauses.
    pub fn new() -> (r: Self)
        ensures
            r.wf(),
            r@ == Seq::<ClauseView>::empty(),
    {
        let r = ProofDag { clauses: Vec::new(), index: HashMap::new() };
        assert(r@ =~= Seq::<ClauseView>::empty());
        r
    }

    /// Adds a clause, unless its id is already there.
    pub fn insert(&mut self, clause: Clause) -> (r: Result<(), DagError>)
        requires
            old(self).wf(),
        ensures
            final(self).wf(),
            match r {
                Ok(_) => !has_id(old(self)@, clause@.id) && final(self)@ == old(self)@.push(clause@),
                Err(e) => {
                    &&& has_id(old(self)@, clause@.id)
                    &&& e@ == DagErrorView::DuplicateId(clause@.id)
                    &&& *final(self) == *old(self)
                },
            },
    {
        if self.index.contains_key(&clause.id) {
            return Err(DagError::DuplicateId(clause.id));
        }
        let at: usize = self.clauses.len();
        let id: ClauseId = clause.id;
        proof {
            if has_id(self@, id) {
                let i = choose|i: int| 0 <= i < self@.len() && (#[trigger] self@[i]).id == id;
                assert(self.index@.contains_key(self@[i].id));
            }
        }
        self.index.insert(id, at);
        self.clauses.push(clause);
        proof {
            let before = old(self)@;
            assert(self.clauses.len() == self.clauses@.len());
            assert(self@ =~= before.push(clause@));
            assert forall|i: int| 0 <= i < self@.len() implies self.index@.contains_key(
                (#[trigger] self@[i]).id,
            ) && self.index@[self@[i].id] == i by {
                if i < at {
                    assert(self@[i] == before[i]);
                    assert(before[i].id != id);
                }
            }
            assert forall|k: ClauseId| #[trigger] self.index@.contains_key(k) implies has_id(
                self@,
                k,
            ) by {
                if k == id {
                    assert(self@[at as int].id == k);
                } else {
                    assert(old(self).index@.contains_key(k));
                    let i = choose|i: int| 0 <= i < before.len() && (#[trigger] before[i]).id == k;
                    assert(self@[i].id == k);
                }
            }
            assert forall|i: int, j: int| 0 <= i < j < self@.len() implies (
            #[trigger] self@[i]).id != (#[trigger] self@[j]).id by {
                assert(self@[i] == before[i]);
                if j < at {
                    assert(self@[j] == before[j]);
                }
            }
        }
        Ok(())
    }

    fn find(&self, id: ClauseId) -> (r: Option<usize>)
        requires
            self.wf(),
        ensures
            match r {
                Some(i) => has_id(self@, id) && i == pos(self@, id) && i < self@.len()
                    && self@[i as int].id == id,
                None => !has_id(self@, id),
            },
    {
        match self.index.get(&id) {
            Some(i) => {
                proof {
                    lemma_has(self@, id);
                    let k = pos(self@, id) as int;
                    assert(self.index@[self@[k].id] == k);
                }
                Some(*i)
            },
            None => {
                proof {
                    if has_id(self@, id) {
                        lemma_has(self@, id);
                        assert(self.index@.contains_key(self@[pos(self@, id) as int].id));
                    }
                }
                None
            },
        }
    }

    /// The clause with this id, if it is there.
    pub fn get(&self, id: ClauseId) -> (r: Option<&Clause>)
        requires
            self.wf(),
        ensures
            match r {
                Some(c) => has_id(self@, id) && c@ == self@[pos(self@, id) as int],
                None => !has_id(self@, id),
            },
    {
        match self.find(id) {
            Some(i) => Some(&self.clauses[i]),
            None => None,
        }
    }

    /// Number of clauses.
    pub fn len(&self) -> (r: usize)
        ensures
            r == self@.len(),
    {
        self.clauses.len()
    }

    fn check_parents(&self, i: usize) -> (r: Result<(), DagError>)
        requires
            self.wf(),
            i < self@.len(),
        ensures
            match r {
                Ok(_) => fault(self@, self@[i as int]) is None,
                Err(e) => fault(self@, self@[i as int]) == Some(e@),
            },
    {
        let c = &self.clauses[i];
        let ghost v = self@[i as int];
        let parents = &c.inference.parents;
        assert(parents@ == v.inference.parents);
        let mut j: usize = 0;
        while j < parents.len()
            invariant
                self.wf(),
                i < self@.len(),
                v == self@[i as int],
                v == c@,
                parents@ == v.inference.parents,
                j <= parents@.len(),
                first_unknown(self@, parents@, j as nat) == first_unknown(self@, parents@, 0),
            decreases parents@.len() - j,
        {
            if self.find(parents[j]).is_none() {
                return Err(DagError::UnknownParent { clause: c.id, missing: parents[j] });
            }
            j += 1;
        }
        if let Some(implied) = parents_implied_by_rule(&c.inference.rule) {
            if !same_parent_set(parents.as_slice(), implied.as_slice()) {
                let e = DagError::ParentsMismatch {
                    clause: c.id,
                    declared: parents.clone(),
                    implied_by_rule: implied,
                };
                assert(e@->declared =~= parents@);
                return Err(e);
            }
        }
        Ok(())
    }

    fn adjacency(&self) -> (r: Vec<Vec<usize>>)
        requires
            self.wf(),
        ensures
            graph_of(r@) == dag_graph(self@),
    {
        let mut adj: Vec<Vec<usize>> = Vec::new();
        let mut i: usize = 0;
        while i < self.clauses.len()
            invariant
                self.wf(),
                i <= self.clauses@.len(),
                adj@.len() == i,
                forall|k: int|
                    0 <= k < i ==> (#[trigger] adj@[k])@ == positions(
                        self@,
                        self.clauses@[k].inference.parents@,
                    ),
            decreases self.clauses@.len() - i,
        {
            let parents = &self.clauses[i].inference.parents;
            let mut known: Vec<usize> = Vec::new();
            let mut j: usize = 0;
            while j < parents.len()
                invariant
                    self.wf(),
                    j <= parents@.len(),
                    known@ == positions(self@, parents@.take(j as int)),
                decreases parents@.len() - j,
            {
                assert(parents@.take(j + 1).drop_last() =~= parents@.take(j as int));
                if let Some(p) = self.find(parents[j]) {
                    known.push(p);
                }
                j += 1;
            }
            assert(parents@.take(j as int) =~= parents@);
            adj.push(known);
            i += 1;
        }
        assert(graph_of(adj@) =~= dag_graph(self@)) by {
            assert forall|k: int| 0 <= k < adj@.len() implies graph_of(adj@)[k] == dag_graph(
                self@,
            )[k] by {
                assert(self@[k] == self.clauses@[k]@);
                assert(adj@[k]@ == positions(self@, self.clauses@[k].inference.parents@));
            }
        }
        adj
    }

    /// Looks for a clause that is its own ancestor.
    fn check_acyclic(&self) -> (r: Result<(), DagError>)
        requires
            self.wf(),
        ensures
            match r {
                Ok(_) => acyclic(dag_graph(self@)),
                Err(e) => {
                    &&& !acyclic(dag_graph(self@))
                    &&& e@ matches DagErrorView::Cycle(path)
                    &&& cycle_of_ids(self@, path)
                },
            },
    {
        let adj: Vec<Vec<usize>> = self.adjacency();
        let ghost g = dag_graph(self@);
        proof {
            lemma_dag_closed(self@);
        }
        match find_cycle(&adj) {
            None => Ok(()),
            Some(walk) => {
                let mut path: Vec<ClauseId> = Vec::new();
                let mut i: usize = 0;
                while i < walk.len()
                    invariant
                        g == dag_graph(self@),
                        cycle_path(g, walk@),
                        i <= walk@.len(),
                        path@.len() == i,
                        forall|k: int|
                            0 <= k < i ==> #[trigger] path@[k] == self@[walk@[k] as int].id,
                    decreases walk@.len() - i,
                {
                    assert(walk@[i as int] < g.len());
                    path.push(self.clauses[walk[i]].id);
                    i += 1;
                }
                proof {
                    lemma_cycle_ids(self@, walk@, path@);
                }
                Err(DagError::Cycle(path))
            },
        }
    }

    /// Checks that every clause has all its parents, that they are those that
    /// its rule names, and that no clause is its own ancestor. Says what is
    /// wrong with the first clause that fails the first two, else reports a
    /// cycle.
    pub fn validate(&self) -> (r: Result<(), DagError>)
        requires
            self.wf(),
        ensures
            validated(self@, r),
    {
        let mut i: usize = 0;
        while i < self.clauses.len()
            invariant
                self.wf(),
                i <= self.clauses@.len(),
                forall|k: int| 0 <= k < i ==> fault(self@, #[trigger] self@[k]) is None,
            decreases self.clauses@.len() - i,
        {
            match self.check_parents(i) {
                Ok(_) => {},
                Err(e) => {
                    assert(fault(self@, self@[i as int]) == Some(e@));
                    return Err(e);
                },
            }
            i += 1;
        }
        self.check_acyclic()
    }

    /// The id of the first empty clause, if there is one.
    pub fn find_bottom(&self) -> (r: Option<ClauseId>)
        ensures
            r == first_empty(self@, 0),
    {
        let mut i: usize = 0;
        while i < self.clauses.len()
            invariant
                i <= self.clauses@.len(),
                first_empty(self@, i as nat) == first_empty(self@, 0),
            decreases self.clauses@.len() - i,
        {
            assert(self@[i as int] == self.clauses@[i as int]@);
            if self.clauses[i].is_empty() {
                return Some(self.clauses[i].id);
            }
            i += 1;
        }
        None
    }

    /// The clause `bottom_id` and its ancestors, and nothing else: parents
    /// before children, `bottom_id` last.
    pub fn extract_relevant(&self, bottom_id: ClauseId) -> (r: Result<Vec<Clause>, DagError>)
        requires
            self.wf(),
            has_id(self@, bottom_id) ==> rooted(self@, bottom_id),
        ensures
            match r {
                Ok(v) => has_id(self@, bottom_id) && clause_views(v@) == relevant(self@, bottom_id),
                Err(e) => !has_id(self@, bottom_id) && e@ == DagErrorView::NoBottom,
            },
    {
        let start: usize = match self.find(bottom_id) {
            Some(i) => i,
            None => {
                return Err(DagError::NoBottom);
            },
        };
        let adj: Vec<Vec<usize>> = self.adjacency();
        let ghost g = dag_graph(self@);
        proof {
            lemma_dag_closed(self@);
            post_order_lists_reached(g, start);
        }
        let order: Vec<usize> = depth_first(&adj, start);
        let mut v: Vec<Clause> = Vec::new();
        let mut i: usize = 0;
        while i < order.len()
            invariant
                forall|k: int| 0 <= k < order@.len() ==> (#[trigger] order@[k]) < self@.len(),
                i <= order@.len(),
                v@.len() == i,
                forall|k: int| 0 <= k < i ==> (#[trigger] v@[k])@ == self@[order@[k] as int],
            decreases order@.len() - i,
        {
            assert(order@[i as int] < self@.len());
            v.push(self.clauses[order[i]].clone());
            i += 1;
        }
        assert(clause_views(v@) =~= relevant(self@, bottom_id));
        Ok(v)
    }

    /// Validates, finds the empty clause and extracts what it follows from.
    pub fn certificate(&self) -> (r: Result<Vec<Clause>, DagError>)
        requires
            self.wf(),
        ensures
            match r {
                Ok(v) => {
                    &&& valid(self@)
                    &&& first_empty(self@, 0) is Some
                    &&& clause_views(v@) == relevant(self@, first_empty(self@, 0)->Some_0)
                },
                Err(e) => if valid(self@) {
                    first_empty(self@, 0) is None && e@ == DagErrorView::NoBottom
                } else {
                    invalid_because(self@, e@)
                },
            },
    {
        match self.validate() {
            Ok(_) => {},
            Err(e) => {
                return Err(e);
            },
        }
        match self.find_bottom() {
            None => Err(DagError::NoBottom),
            Some(bottom) => {
                proof {
                    lemma_first_empty(self@, 0);
                    lemma_valid_rooted(self@, bottom);
                }
                self.extract_relevant(bottom)
            },
        }
    }
}

impl Default for ProofDag {
    fn default() -> (r: Self)
        ensures
            r.wf(),
            r@ == Seq::<ClauseView>::empty(),
    {
        ProofDag::new()
    }
}

/// The views of a list of clauses.
pub open spec fn clause_views(cs: Seq<Clause>) -> Seq<ClauseView> {
    Seq::new(cs.len(), |i: int| cs[i]@)
}

/// The error names what is wrong: with the first clause whose parents are
/// wrong, or where there is none a cycle.
pub open spec fn invalid_because(dag: Seq<ClauseView>, e: DagErrorView) -> bool {
    ||| exists|i: int|
        0 <= i < dag.len() && fault(dag, #[trigger] dag[i]) == Some(e) && forall|k: int|
            0 <= k < i ==> fault(dag, #[trigger] dag[k]) is None
    ||| {
        &&& forall|i: int| 0 <= i < dag.len() ==> fault(dag, #[trigger] dag[i]) is None
        &&& e matches DagErrorView::Cycle(path)
        &&& cycle_of_ids(dag, path)
    }
}

/// What validation returns.
pub open spec fn validated(dag: Seq<ClauseView>, r: Result<(), DagError>) -> bool {
    match r {
        Ok(_) => valid(dag),
        Err(e) => !valid(dag) && invalid_because(dag, e@),
    }
}

proof fn lemma_cycle_ids(dag: Seq<ClauseView>, walk: Seq<usize>, path: Seq<ClauseId>)
    requires
        distinct(dag),
        dag.len() <= usize::MAX,
        cycle_path(dag_graph(dag), walk),
        path.len() == walk.len(),
        forall|k: int| 0 <= k < walk.len() ==> #[trigger] path[k] == dag[walk[k] as int].id,
    ensures
        cycle_of_ids(dag, path),
{
    let g = dag_graph(dag);
    assert forall|i: int| 0 <= i < path.len() implies has_id(dag, #[trigger] path[i]) && pos(
        dag,
        path[i],
    ) == walk[i] by {
        assert(walk[i] < g.len());
        lemma_pos(dag, walk[i] as int);
    }
    assert forall|i: int| 0 <= i < path.len() - 1 implies dag[pos(
        dag,
        #[trigger] path[i],
    ) as int].inference.parents.contains(path[i + 1]) by {
        assert(has_id(dag, path[i]));
        let parents = dag[walk[i] as int].inference.parents;
        lemma_positions(dag, parents);
        assert(g[walk[i] as int].contains(walk[i + 1]));
        let j = choose|j: int| 0 <= j < g[walk[i] as int].len() && g[walk[i] as int][j] == walk[i + 1];
        assert(positions(dag, parents)[j] == walk[i + 1]);
        assert(path[i + 1] == dag[walk[i + 1] as int].id);
    }
    let i = choose|i: int| 0 <= i < walk.len() - 1 && #[trigger] walk[i] == walk.last();
    assert(path[i] == path.last());
}

/// The first empty clause is one of the clauses and empty.
pub proof fn lemma_first_empty(dag: Seq<ClauseView>, i: nat)
    ensures
        first_empty(dag, i) matches Some(id) ==> exists|k: int|
            i <= k < dag.len() && (#[trigger] dag[k]).id == id && dag[k].literals.len() == 0,
        first_empty(dag, i) is None ==> forall|k: int|
            i <= k < dag.len() ==> (#[trigger] dag[k]).literals.len() > 0,
    decreases dag.len() - i,
{
    if i < dag.len() {
        lemma_first_empty(dag, i + 1);
        if dag[i as int].literals.len() == 0 {
            assert(dag[i as int].id == dag[i as int].id);
        }
    }
}

proof fn lemma_fault_parents(dag: Seq<ClauseView>, c: ClauseView)
    requires
        fault(dag, c) is None,
    ensures
        parents_known(dag, c),
{
    lemma_first_unknown(dag, c.inference.parents, 0);
}

proof fn lemma_valid_rooted(dag: Seq<ClauseView>, id: ClauseId)
    requires
        valid(dag),
    ensures
        rooted(dag, id),
{
    assert forall|x: usize|
        x < dag.len() && #[trigger] reaches(dag_graph(dag), pos(dag, id), x) implies parents_known(
        dag,
        dag[x as int],
    ) by {
        assert(fault(dag, dag[x as int]) is None);
        lemma_fault_parents(dag, dag[x as int]);
    }
}

// ---------------------------------------------------------------------------
// Laws.
// ---------------------------------------------------------------------------
/// What is extracted is a derivation that reads from top to bottom: it ends
/// with the clause asked for, holds each clause once, each of them from the
/// graph and an ancestor of that clause, and all ancestors; and without
/// cycles, every clause comes after all its parents.
pub proof fn extract_is_a_derivation(dag: Seq<ClauseView>, id: ClauseId)
    requires
        distinct(dag),
        dag.len() <= usize::MAX,
        has_id(dag, id),
        rooted(dag, id),
    ensures
        ({
            let v = relevant(dag, id);
            &&& v.len() > 0
            &&& v.last().id == id
            &&& distinct(v)
            &&& forall|i: int|
                0 <= i < v.len() ==> has_id(dag, (#[trigger] v[i]).id) && v[i] == dag[pos(
                    dag,
                    v[i].id,
                ) as int] && reaches(dag_graph(dag), pos(dag, id), pos(dag, v[i].id))
            &&& forall|x: usize|
                x < dag.len() && #[trigger] reaches(dag_graph(dag), pos(dag, id), x) ==> has_id(
                    v,
                    dag[x as int].id,
                )
            &&& acyclic(dag_graph(dag)) ==> forall|i: int, j: int|
                #![trigger v[i].inference.parents[j]]
                0 <= i < v.len() && 0 <= j < v[i].inference.parents.len() ==> has_id(
                    v.take(i),
                    v[i].inference.parents[j],
                )
        }),
{
    let g = dag_graph(dag);
    let s = pos(dag, id);
    let o = post_order(g, s);
    let v = relevant(dag, id);
    lemma_has(dag, id);
    lemma_dag_closed(dag);
    post_order_lists_reached(g, s);
    assert forall|i: int| 0 <= i < v.len() implies has_id(dag, (#[trigger] v[i]).id) && pos(
        dag,
        v[i].id,
    ) == o[i] && reaches(g, s, o[i]) by {
        assert(o[i] < g.len());
        lemma_pos(dag, o[i] as int);
        assert(o.contains(o[i]));
    }
    assert forall|i: int, j: int| 0 <= i < j < v.len() implies (#[trigger] v[i]).id != (
    #[trigger] v[j]).id by {
        assert(has_id(dag, v[i].id) && has_id(dag, v[j].id));
        assert(o[i] != o[j]);
    }
    assert forall|x: usize| x < dag.len() && #[trigger] reaches(g, s, x) implies has_id(
        v,
        dag[x as int].id,
    ) by {
        assert(o.contains(x));
        let i = choose|i: int| 0 <= i < o.len() && o[i] == x;
        assert(v[i].id == dag[x as int].id);
    }
    if acyclic(g) {
        assert forall|i: int, j: int|
            #![trigger v[i].inference.parents[j]]
            0 <= i < v.len() && 0 <= j < v[i].inference.parents.len() implies has_id(
            v.take(i),
            v[i].inference.parents[j],
        ) by {
            assert(has_id(dag, v[i].id));
            let x = o[i];
            assert(o[i] < g.len());
            let parents = dag[x as int].inference.parents;
            assert(parents_known(dag, dag[x as int]));
            lemma_positions(dag, parents);
            let p = pos(dag, parents[j]);
            assert(g[o[i] as int][j] == p);
            assert(o.take(i).contains(g[o[i] as int][j]));
            let q = choose|q: int| 0 <= q < o.take(i).len() && o.take(i)[q] == p;
            assert(has_id(dag, parents[j]));
            lemma_has(dag, parents[j]);
            assert(v.take(i)[q] == dag[p as int]);
            assert(v.take(i)[q].id == parents[j]);
        }
    }
}

/// A certificate is a derivation of the empty clause that reads from top to
/// bottom.
pub proof fn certificate_is_a_refutation(dag: Seq<ClauseView>)
    requires
        distinct(dag),
        dag.len() <= usize::MAX,
        valid(dag),
        first_empty(dag, 0) is Some,
    ensures
        ({
            let v = relevant(dag, first_empty(dag, 0)->Some_0);
            &&& v.len() > 0
            &&& v.last().literals.len() == 0
            &&& distinct(v)
            &&& forall|i: int, j: int|
                #![trigger v[i].inference.parents[j]]
                0 <= i < v.len() && 0 <= j < v[i].inference.parents.len() ==> has_id(
                    v.take(i),
                    v[i].inference.parents[j],
                )
        }),
{
    let id = first_empty(dag, 0)->Some_0;
    lemma_first_empty(dag, 0);
    let k = choose|k: int|
        0 <= k < dag.len() && (#[trigger] dag[k]).id == id && dag[k].literals.len() == 0;
    lemma_pos(dag, k);
    lemma_valid_rooted(dag, id);
    extract_is_a_derivation(dag, id);
    let v = relevant(dag, id);
    let last = v[v.len() - 1];
    assert(has_id(dag, last.id));
}

/// Clauses whose ids are their positions, whose parents come earlier and are
/// those that their rules name form a valid graph.
pub proof fn earlier_parents_are_valid(dag: Seq<ClauseView>)
    requires
        dag.len() <= u32::MAX,
        forall|i: int| 0 <= i < dag.len() ==> (#[trigger] dag[i]).id == i,
        parents_first(dag),
        forall|i: int|
            0 <= i < dag.len() ==> (implied_parents((#[trigger] dag[i]).inference.rule) matches Some(
                ps,
            ) ==> dag[i].inference.parents.to_set() == ps.to_set()),
    ensures
        distinct(dag),
        valid(dag),
{
    assert forall|i: int, j: int| 0 <= i < j < dag.len() implies (#[trigger] dag[i]).id != (
    #[trigger] dag[j]).id by {}
    assert forall|i: int| 0 <= i < dag.len() implies fault(dag, #[trigger] dag[i]) is None by {
        let parents = dag[i].inference.parents;
        assert forall|k: int| 0 <= k < parents.len() implies has_id(dag, #[trigger] parents[k]) by {
            assert(dag[i].inference.parents[k] < i);
            assert(dag[parents[k] as int].id == parents[k]);
        }
        lemma_first_unknown(dag, parents, 0);
    }
    let g = dag_graph(dag);
    let rank = |x: usize| x as nat;
    assert(falls(g, rank)) by {
        assert forall|k: usize, j: int| k < g.len() && 0 <= j < g[k as int].len() implies rank(
            #[trigger] g[k as int][j],
        ) < rank(k) by {
            let parents = dag[k as int].inference.parents;
            lemma_positions(dag, parents);
            let p = positions(dag, parents)[j];
            let i = choose|i: int| 0 <= i < parents.len() && parents[i] == dag[p as int].id;
            assert(dag[k as int].inference.parents[i] < k);
        }
    }
}

// ---------------------------------------------------------------------------
// The terms that a derivation mentions.
// ---------------------------------------------------------------------------
/// The unifier of a rule, where it has one.
pub open spec fn unifier_of(rule: RuleView) -> Option<Map<VarId, TermId>> {
    match rule {
        RuleView::Resolution { unifier, .. } => Some(unifier),
        RuleView::Factoring { unifier, .. } => Some(unifier),
        _ => None,
    }
}

/// The substitution of a rule, where it has one.
fn substitution_of(rule: &InferenceRule) -> (r: Option<&Substitution>)
    ensures
        match r {
            Some(s) => unifier_of(rule@) == Some(s@),
            None => unifier_of(rule@) is None,
        },
{
    match rule {
        InferenceRule::Resolution { unifier, .. } => Some(unifier),
        InferenceRule::Factoring { unifier, .. } => Some(unifier),
        _ => None,
    }
}

/// Whether `t` is an argument of a literal of the clause, or what its unifier
/// binds a variable to.
pub open spec fn mentions(c: ClauseView, t: TermId) -> bool {
    ||| exists|l: int, a: int|
        0 <= l < c.literals.len() && 0 <= a < c.literals[l].args.len()
            && #[trigger] c.literals[l].args[a] == t
    ||| exists|v: VarId|
        unifier_of(c.inference.rule) is Some && #[trigger] unifier_of(
            c.inference.rule,
        )->Some_0.contains_key(v) && unifier_of(c.inference.rule)->Some_0[v] == t
}

/// Whether one of the clauses mentions `t`.
pub open spec fn mentioned(cs: Seq<ClauseView>, t: TermId) -> bool {
    exists|i: int| 0 <= i < cs.len() && mentions(#[trigger] cs[i], t)
}

/// Whether `t` is `root` or a subterm of it.
pub open spec fn subterm(arena: &TermArena, t: TermId, root: TermId) -> bool
    decreases root,
{
    t == root || exists|k: int|
        0 <= k < arena.arg_ids(root).len() && (#[trigger] arena.arg_ids(root)[k]) < root && subterm(
            arena,
            t,
            arena.arg_ids(root)[k],
        )
}

/// Whether `t` is a subterm of a term that one of the clauses mentions.
pub open spec fn used_term(cs: Seq<ClauseView>, arena: &TermArena, t: TermId) -> bool {
    exists|root: TermId| mentioned(cs, root) && #[trigger] subterm(arena, t, root)
}

/// Whether the clauses mention only terms of the arena.
pub open spec fn mentions_valid(cs: Seq<ClauseView>, arena: &TermArena) -> bool {
    forall|t: TermId| #[trigger] mentioned(cs, t) ==> arena.valid(t)
}

proof fn lemma_subterm_step(arena: &TermArena, t: TermId, k: int, root: TermId)
    requires
        arena.wf(),
        arena.valid(root),
        subterm(arena, t, root),
        0 <= k < arena.arg_ids(t).len(),
    ensures
        arena.valid(t),
        subterm(arena, arena.arg_ids(t)[k], root),
    decreases root,
{
    arena.lemma_args_below(root);
    if t == root {
        assert(subterm(arena, arena.arg_ids(root)[k], arena.arg_ids(root)[k]));
    } else {
        let j = choose|j: int|
            0 <= j < arena.arg_ids(root).len() && (#[trigger] arena.arg_ids(root)[j]) < root
                && subterm(arena, t, arena.arg_ids(root)[j]);
        lemma_subterm_step(arena, t, k, arena.arg_ids(root)[j]);
        assert(subterm(arena, arena.arg_ids(t)[k], arena.arg_ids(root)[j]));
    }
}

proof fn lemma_subterm_valid(arena: &TermArena, t: TermId, root: TermId)
    requires
        arena.wf(),
        arena.valid(root),
        subterm(arena, t, root),
    ensures
        arena.valid(t),
    decreases root,
{
    if t != root {
        let j = choose|j: int|
            0 <= j < arena.arg_ids(root).len() && (#[trigger] arena.arg_ids(root)[j]) < root
                && subterm(arena, t, arena.arg_ids(root)[j]);
        arena.lemma_args_below(root);
        lemma_subterm_valid(arena, t, arena.arg_ids(root)[j]);
    }
}

/// What valid clauses use is in the arena.
pub proof fn lemma_used_valid(cs: Seq<ClauseView>, arena: &TermArena, t: TermId)
    requires
        arena.wf(),
        mentions_valid(cs, arena),
        used_term(cs, arena, t),
    ensures
        arena.valid(t),
{
    let root = choose|root: TermId| mentioned(cs, root) && #[trigger] subterm(arena, t, root);
    lemma_subterm_valid(arena, t, root);
}

/// With a term, its arguments are used.
pub proof fn lemma_used_argument(cs: Seq<ClauseView>, arena: &TermArena, t: TermId, k: int)
    requires
        arena.wf(),
        mentions_valid(cs, arena),
        used_term(cs, arena, t),
        0 <= k < arena.arg_ids(t).len(),
    ensures
        used_term(cs, arena, arena.arg_ids(t)[k]),
{
    let root = choose|root: TermId| mentioned(cs, root) && #[trigger] subterm(arena, t, root);
    lemma_subterm_step(arena, t, k, root);
    assert(subterm(arena, arena.arg_ids(t)[k], root));
}

proof fn lemma_subterm_in_closed(arena: &TermArena, used: Set<TermId>, t: TermId, root: TermId)
    requires
        used.contains(root),
        forall|x: TermId, k: int|
            used.contains(x) && 0 <= k < arena.arg_ids(x).len() ==> used.contains(
                #[trigger] arena.arg_ids(x)[k],
            ),
        subterm(arena, t, root),
    ensures
        used.contains(t),
    decreases root,
{
    if t != root {
        let j = choose|j: int|
            0 <= j < arena.arg_ids(root).len() && (#[trigger] arena.arg_ids(root)[j]) < root
                && subterm(arena, t, arena.arg_ids(root)[j]);
        lemma_subterm_in_closed(arena, used, t, arena.arg_ids(root)[j]);
    }
}

/// Lists the terms that the clauses mention directly.
fn mentioned_terms(clauses: &[Clause]) -> (r: Vec<TermId>)
    ensures
        forall|t: TermId| #[trigger] r@.contains(t) <==> mentioned(clause_views(clauses@), t),
{
    let ghost cs = clause_views(clauses@);
    let mut out: Vec<TermId> = Vec::new();
    let mut i: usize = 0;
    while i < clauses.len()
        invariant
            cs == clause_views(clauses@),
            i <= clauses@.len(),
            forall|t: TermId| #[trigger] out@.contains(t) <==> mentioned(cs.take(i as int), t),
        decreases clauses@.len() - i,
    {
        let c = &clauses[i];
        let ghost view = cs[i as int];
        let ghost first = out@;
        let mut l: usize = 0;
        while l < c.literals.len()
            invariant
                view == c@,
                l <= c.literals@.len(),
                forall|t: TermId| #[trigger]
                    out@.contains(t) <==> first.contains(t) || exists|m: int, a: int|
                        0 <= m < l && 0 <= a < view.literals[m].args.len()
                            && #[trigger] view.literals[m].args[a] == t,
            decreases c.literals@.len() - l,
        {
            let args = &c.literals[l].args;
            let ghost before = out@;
            assert(view.literals[l as int] == c.literals@[l as int]@);
            out.extend_from_slice(args.as_slice());
            proof {
                assert(out@ =~= before + args@);
                assert forall|t: TermId| #[trigger] out@.contains(t) <==> first.contains(t)
                    || exists|m: int, a: int|
                    0 <= m < l + 1 && 0 <= a < view.literals[m].args.len()
                        && #[trigger] view.literals[m].args[a] == t by {
                    lemma_concat_contains(before, args@, t);
                    if args@.contains(t) {
                        let a = choose|a: int| 0 <= a < args@.len() && args@[a] == t;
                        assert(view.literals[l as int].args[a] == t);
                    }
                    if before.contains(t) && !first.contains(t) {
                        let (m, a) = choose|m: int, a: int|
                            0 <= m < l && 0 <= a < view.literals[m].args.len()
                                && #[trigger] view.literals[m].args[a] == t;
                        assert(view.literals[m].args[a] == t);
                    }
                    if exists|m: int, a: int|
                        0 <= m < l + 1 && 0 <= a < view.literals[m].args.len()
                            && #[trigger] view.literals[m].args[a] == t {
                        let (m, a) = choose|m: int, a: int|
                            0 <= m < l + 1 && 0 <= a < view.literals[m].args.len()
                                && #[trigger] view.literals[m].args[a] == t;
                        if m == l {
                            assert(args@[a] == t);
                        } else {
                            assert(view.literals[m].args[a] == t);
                        }
                    }
                }
            }
            l += 1;
        }
        let ghost second = out@;
        if let Some(sub) = substitution_of(&c.inference.rule) {
            let pairs = sub.iter();
            let mut p: usize = 0;
            while p < pairs.len()
                invariant
                    p <= pairs@.len(),
                    forall|t: TermId| #[trigger]
                        out@.contains(t) <==> second.contains(t) || exists|k: int|
                            0 <= k < p && (#[trigger] pairs@[k]).1 == t,
                decreases pairs@.len() - p,
            {
                let ghost before = out@;
                out.push(pairs[p].1);
                proof {
                    assert forall|t: TermId| #[trigger] out@.contains(t) <==> second.contains(t)
                        || exists|k: int| 0 <= k < p + 1 && (#[trigger] pairs@[k]).1 == t by {
                        lemma_push_contains(before, pairs@[p as int].1, t);
                        if t == pairs@[p as int].1 {
                            assert(pairs@[p as int].1 == t);
                        }
                        if before.contains(t) && !second.contains(t) {
                            let k = choose|k: int| 0 <= k < p && (#[trigger] pairs@[k]).1 == t;
                            assert(pairs@[k].1 == t);
                        }
                    }
                }
                p += 1;
            }
            proof {
                let m = unifier_of(view.inference.rule)->Some_0;
                assert(lists(m, pairs@));
                assert forall|t: TermId| #[trigger] out@.contains(t) <==> second.contains(t)
                    || exists|v: VarId| #[trigger] m.contains_key(v) && m[v] == t by {
                    if exists|k: int| 0 <= k < p && (#[trigger] pairs@[k]).1 == t {
                        let k = choose|k: int| 0 <= k < p && (#[trigger] pairs@[k]).1 == t;
                        assert(m.contains_key(pairs@[k].0));
                    }
                    if exists|v: VarId| #[trigger] m.contains_key(v) && m[v] == t {
                        let v = choose|v: VarId| #[trigger] m.contains_key(v) && m[v] == t;
                        let k = choose|k: int| 0 <= k < pairs@.len() && (#[trigger] pairs@[k]).0 == v;
                        assert(pairs@[k].1 == t);
                    }
                }
            }
        }
        proof {
            assert forall|t: TermId| #[trigger] out@.contains(t) <==> first.contains(t) || mentions(
                view,
                t,
            ) by {}
            assert forall|t: TermId| #[trigger] out@.contains(t) <==> mentioned(
                cs.take(i + 1),
                t,
            ) by {
                assert(cs.take(i + 1)[i as int] == view);
                if mentioned(cs.take(i as int), t) {
                    let k = choose|k: int|
                        0 <= k < cs.take(i as int).len() && mentions(
                            #[trigger] cs.take(i as int)[k],
                            t,
                        );
                    assert(cs.take(i + 1)[k] == cs.take(i as int)[k]);
                }
                if mentioned(cs.take(i + 1), t) {
                    let k = choose|k: int|
                        0 <= k < cs.take(i + 1).len() && mentions(#[trigger] cs.take(i + 1)[k], t);
                    if k < i {
                        assert(cs.take(i + 1)[k] == cs.take(i as int)[k]);
                    }
                }
            }
        }
        i += 1;
    }
    assert(cs.take(i as int) =~= cs);
    out
}

proof fn lemma_concat_contains(a: Seq<TermId>, b: Seq<TermId>, t: TermId)
    ensures
        (a + b).contains(t) <==> a.contains(t) || b.contains(t),
{
    let c = a + b;
    if a.contains(t) {
        let i = choose|i: int| 0 <= i < a.len() && a[i] == t;
        assert(c[i] == t);
    }
    if b.contains(t) {
        let i = choose|i: int| 0 <= i < b.len() && b[i] == t;
        assert(c[a.len() + i] == t);
    }
    if c.contains(t) {
        let i = choose|i: int| 0 <= i < c.len() && c[i] == t;
        if i < a.len() {
            assert(a[i] == t);
        } else {
            assert(b[i - a.len()] == t);
        }
    }
}

proof fn lemma_push_contains(a: Seq<TermId>, x: TermId, t: TermId)
    ensures
        a.push(x).contains(t) <==> a.contains(t) || t == x,
{
    let c = a.push(x);
    assert(c[a.len() as int] == x);
    if a.contains(t) {
        let i = choose|i: int| 0 <= i < a.len() && a[i] == t;
        assert(c[i] == t);
    }
}

proof fn lemma_ids_bound(used: Set<TermId>, n: nat)
    requires
        n <= u32::MAX,
        forall|t: TermId| #[trigger] used.contains(t) ==> t < n,
    ensures
        used.finite(),
        used.len() <= n,
    decreases n,
{
    if n == 0 {
        assert(used =~= Set::empty());
    } else {
        let last = (n - 1) as TermId;
        lemma_ids_bound(used.remove(last), (n - 1) as nat);
        if used.contains(last) {
            assert(used =~= used.remove(last).insert(last));
        } else {
            assert(used =~= used.remove(last));
        }
    }
}

/// The ids of all terms that the clauses need: the arguments of their
/// literals, what their unifiers bind variables to, and all subterms of those.
pub fn collect_used_term_ids(clauses: &[Clause], arena: &TermArena) -> (r: HashSet<TermId>)
    requires
        arena.wf(),
        mentions_valid(clause_views(clauses@), arena),
    ensures
        forall|t: TermId| #[trigger]
            r@.contains(t) <==> used_term(clause_views(clauses@), arena, t),
{
    let ghost cs = clause_views(clauses@);
    let mut used: HashSet<TermId> = HashSet::new();
    let mut stack: Vec<TermId> = mentioned_terms(clauses);
    proof {
        arena.lemma_limits();
        assert forall|t: TermId| #[trigger] stack@.contains(t) implies used_term(cs, arena, t) by {
            assert(subterm(arena, t, t));
        }
        lemma_ids_bound(used@, 0);
    }
    while stack.len() > 0
        invariant
            arena.wf(),
            arena.data().len() <= u32::MAX,
            cs == clause_views(clauses@),
            mentions_valid(cs, arena),
            forall|t: TermId| #[trigger] stack@.contains(t) ==> used_term(cs, arena, t),
            forall|t: TermId| #[trigger] used@.contains(t) ==> used_term(cs, arena, t),
            forall|t: TermId| #[trigger] used@.contains(t) ==> arena.valid(t),
            forall|t: TermId| #[trigger]
                mentioned(cs, t) ==> used@.contains(t) || stack@.contains(t),
            forall|x: TermId, k: int|
                used@.contains(x) && 0 <= k < arena.arg_ids(x).len() ==> used@.contains(
                    #[trigger] arena.arg_ids(x)[k],
                ) || stack@.contains(arena.arg_ids(x)[k]),
            used@.finite(),
            used@.len() <= arena.data().len(),
        decreases arena.data().len() - used@.len(), stack@.len(),
    {
        let ghost before = stack@;
        let ghost had = used@;
        let t: TermId = stack[stack.len() - 1];
        stack.pop();
        let ghost rest = stack@;
        proof {
            assert(before[before.len() - 1] == t);
            assert(before.contains(t));
            assert(before =~= rest.push(t));
            assert forall|x: TermId| #[trigger] before.contains(x) <==> rest.contains(x) || x
                == t by {
                lemma_push_contains(rest, t, x);
            }
            assert forall|x: TermId| #[trigger] rest.contains(x) implies used_term(
                cs,
                arena,
                x,
            ) by {
                assert(before.contains(x));
            }
            let root = choose|root: TermId| mentioned(cs, root) && #[trigger] subterm(
                arena,
                t,
                root,
            );
            lemma_subterm_valid(arena, t, root);
        }
        if !used.contains(&t) {
            used.insert(t);
            let args = arena.args(t);
            stack.extend_from_slice(args);
            proof {
                assert(stack@ =~= rest + args@);
                assert forall|x: TermId| #[trigger] stack@.contains(x) <==> rest.contains(x)
                    || args@.contains(x) by {
                    lemma_concat_contains(rest, args@, x);
                }
                assert forall|x: TermId| args@.contains(x) implies used_term(cs, arena, x) by {
                    let k = choose|k: int| 0 <= k < args@.len() && args@[k] == x;
                    let root = choose|root: TermId| mentioned(cs, root) && #[trigger] subterm(
                        arena,
                        t,
                        root,
                    );
                    lemma_subterm_step(arena, t, k, root);
                    assert(subterm(arena, x, root));
                }
                assert forall|x: TermId, k: int|
                    used@.contains(x) && 0 <= k < arena.arg_ids(x).len() implies used@.contains(
                    #[trigger] arena.arg_ids(x)[k],
                ) || stack@.contains(arena.arg_ids(x)[k]) by {
                    let y = arena.arg_ids(x)[k];
                    if x == t {
                        assert(args@[k] == y);
                        assert(args@.contains(y));
                    } else {
                        assert(had.contains(x));
                        assert(had.contains(y) || before.contains(y));
                    }
                }
                lemma_ids_bound(used@, arena.data().len());
            }
        } else {
            proof {
                assert forall|x: TermId, k: int|
                    used@.contains(x) && 0 <= k < arena.arg_ids(x).len() implies used@.contains(
                    #[trigger] arena.arg_ids(x)[k],
                ) || stack@.contains(arena.arg_ids(x)[k]) by {
                    let y = arena.arg_ids(x)[k];
                    assert(had.contains(y) || before.contains(y));
                }
            }
        }
    }
    proof {
        assert forall|t: TermId| used_term(cs, arena, t) implies #[trigger] used@.contains(t) by {
            let root = choose|root: TermId| mentioned(cs, root) && #[trigger] subterm(
                arena,
                t,
                root,
            );
            assert(used@.contains(root) || stack@.contains(root));
            lemma_subterm_in_closed(arena, used@, t, root);
        }
    }
    used
}

} // verus!
