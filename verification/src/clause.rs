//! Literals, clauses, and the append-only store of all clauses of a problem.
use crate::graph::{
    acyclic, closed, depth_first, falls, graph_of, post_order, post_order_lists_reached, reaches,
    Graph,
};
use crate::term::{named, terms_text, SymbolId, SymbolTable, TermArena, TermId, VarId};
use crate::text::join;
use crate::tree::{any_has_var, inst_all, lemma_sizes_monotonic, sizes, Assignment, Tree};
use crate::unify::Substitution;
use vstd::prelude::*;
use vstd::std_specs::iter::IteratorSpec;

verus! {

/// Index of a clause in a clause store.
pub type ClauseId = u32;

/// A predicate applied to terms, or its negation.
#[derive(Debug, PartialEq, Eq, Hash)]
pub struct Literal {
    /// True for a positive literal.
    pub polarity: bool,
    /// The predicate symbol.
    pub predicate: SymbolId,
    /// The ids of the arguments.
    pub args: Vec<TermId>,
}

/// A literal whose arguments are ids of some arena.
#[verifier::ext_equal]
pub struct LitIds {
    pub positive: bool,
    pub predicate: SymbolId,
    pub args: Seq<TermId>,
}

/// A literal whose arguments are trees.
#[verifier::ext_equal]
pub struct Lit {
    pub positive: bool,
    pub predicate: SymbolId,
    pub args: Seq<Tree>,
}

impl Lit {
    /// The literal with its variables replaced.
    pub open spec fn inst(self, tau: Assignment) -> Lit {
        Lit { positive: self.positive, predicate: self.predicate, args: inst_all(self.args, tau) }
    }

    /// Whether a variable occurs in the literal.
    pub open spec fn has_var(self, v: VarId) -> bool {
        any_has_var(self.args, v)
    }

    /// One for the predicate and the sizes of the arguments.
    pub open spec fn weight(self) -> nat {
        1 + sizes(self.args, self.args.len())
    }
}

/// Instantiates every literal.
pub open spec fn inst_lits(ls: Seq<Lit>, tau: Assignment) -> Seq<Lit> {
    Seq::new(ls.len(), |i: int| ls[i].inst(tau))
}

/// Whether a variable occurs in one of the literals.
pub open spec fn lits_have_var(ls: Seq<Lit>, v: VarId) -> bool {
    exists|i: int| 0 <= i < ls.len() && (#[trigger] ls[i]).has_var(v)
}

/// Sum of the weights of the first `k` literals.
pub open spec fn weights(ls: Seq<Lit>, k: nat) -> nat
    decreases k,
{
    if k == 0 {
        0
    } else {
        weights(ls, (k - 1) as nat) + ls[k - 1].weight()
    }
}

/// Longer prefixes weigh at least as much.
pub proof fn lemma_weights_monotonic(ls: Seq<Lit>, j: nat, k: nat)
    requires
        j <= k,
    ensures
        weights(ls, j) <= weights(ls, k),
    decreases k,
{
    if j < k {
        lemma_weights_monotonic(ls, j, (k - 1) as nat);
    }
}

/// Weights depend on the literals of the prefix only.
pub proof fn lemma_weights_prefix(ls: Seq<Lit>, ms: Seq<Lit>, k: nat)
    requires
        k <= ls.len(),
        k <= ms.len(),
        forall|i: int| 0 <= i < k ==> ls[i] == ms[i],
    ensures
        weights(ls, k) == weights(ms, k),
    decreases k,
{
    if k > 0 {
        lemma_weights_prefix(ls, ms, (k - 1) as nat);
    }
}

impl LitIds {
    /// Whether the arguments are terms of the arena.
    pub open spec fn valid(self, arena: &TermArena) -> bool {
        arena.all_valid(self.args)
    }

    /// The literal over trees.
    pub open spec fn lit(self, arena: &TermArena) -> Lit {
        Lit { positive: self.positive, predicate: self.predicate, args: arena.trees(self.args) }
    }
}

impl View for Literal {
    type V = LitIds;

    open spec fn view(&self) -> LitIds {
        LitIds { positive: self.polarity, predicate: self.predicate, args: self.args@ }
    }
}

/// The views of a list of literals.
pub open spec fn views(ls: Seq<Literal>) -> Seq<LitIds> {
    Seq::new(ls.len(), |i: int| ls[i]@)
}

/// Whether all arguments are terms of the arena.
pub open spec fn lits_valid(ls: Seq<LitIds>, arena: &TermArena) -> bool {
    forall|i: int| 0 <= i < ls.len() ==> (#[trigger] ls[i]).valid(arena)
}

/// The literals over trees.
pub open spec fn lits(ls: Seq<LitIds>, arena: &TermArena) -> Seq<Lit> {
    Seq::new(ls.len(), |i: int| ls[i].lit(arena))
}

/// Literals keep their trees when the arena grows.
pub proof fn lemma_lit_extends(l: LitIds, older: &TermArena, newer: &TermArena)
    requires
        older.wf(),
        newer.extends(older),
        l.valid(older),
    ensures
        l.valid(newer),
        l.lit(newer) == l.lit(older),
{
    newer.lemma_extends_trees(older, l.args);
}

/// Lists of literals keep their trees when the arena grows.
pub proof fn lemma_lits_extends(ls: Seq<LitIds>, older: &TermArena, newer: &TermArena)
    requires
        older.wf(),
        newer.extends(older),
        lits_valid(ls, older),
    ensures
        lits_valid(ls, newer),
        lits(ls, newer) == lits(ls, older),
{
    assert forall|i: int| 0 <= i < ls.len() implies (#[trigger] ls[i]).valid(newer) && ls[i].lit(
        newer,
    ) == ls[i].lit(older) by {
        lemma_lit_extends(ls[i], older, newer);
    }
    assert(lits(ls, newer) =~= lits(ls, older));
}

/// The text of a literal: a negative one starts with `~`.
pub open spec fn lit_text(l: Lit, names: Seq<Seq<char>>) -> Seq<char> {
    (if l.positive {
        Seq::empty()
    } else {
        "~"@
    }) + (if l.args.len() == 0 {
        names[l.predicate as int]
    } else {
        names[l.predicate as int] + "("@ + terms_text(l.args, l.args.len(), names) + ")"@
    })
}

/// Whether all symbols of the literal are below `n`.
pub open spec fn lit_named(l: Lit, n: nat) -> bool {
    &&& l.predicate < n
    &&& forall|i: int| 0 <= i < l.args.len() ==> named(#[trigger] l.args[i], n)
}

impl Clone for Literal {
    fn clone(&self) -> (r: Self)
        ensures
            r@ == self@,
    {
        Literal { polarity: self.polarity, predicate: self.predicate, args: self.args.clone() }
    }
}

impl Literal {
    /// A positive literal.
    pub fn positive(predicate: SymbolId, args: Vec<TermId>) -> (r: Self)
        ensures
            r == (Literal { polarity: true, predicate, args }),
    {
        Literal { polarity: true, predicate, args }
    }

    /// A negative literal.
    pub fn negative(predicate: SymbolId, args: Vec<TermId>) -> (r: Self)
        ensures
            r == (Literal { polarity: false, predicate, args }),
    {
        Literal { polarity: false, predicate, args }
    }

    /// Whether the literal is positive.
    pub fn is_positive(&self) -> (r: bool)
        ensures
            r == self@.positive,
    {
        self.polarity
    }

    /// Whether the literal is negative.
    pub fn is_negative(&self) -> (r: bool)
        ensures
            r == !self@.positive,
    {
        !self.polarity
    }

    /// The literal of the other polarity.
    pub fn negate(&self) -> (r: Literal)
        ensures
            r@ == self@.negation(),
    {
        Literal { polarity: !self.polarity, predicate: self.predicate, args: self.args.clone() }
    }

    /// Number of arguments.
    pub fn arity(&self) -> (r: usize)
        ensures
            r == self@.args.len(),
    {
        self.args.len()
    }

    /// Whether the two literals are each other's negation as they stand,
    /// without unifying anything.
    pub fn is_complementary_ground(&self, other: &Literal) -> (r: bool)
        ensures
            r == (other@ == self@.negation()),
    {
        if self.polarity == other.polarity || self.predicate != other.predicate
            || self.args.len() != other.args.len() {
            return false;
        }
        let mut i: usize = 0;
        while i < self.args.len()
            invariant
                self.args@.len() == other.args@.len(),
                i <= self.args@.len(),
                forall|k: int| 0 <= k < i ==> self.args@[k] == other.args@[k],
            decreases self.args@.len() - i,
        {
            if self.args[i] != other.args[i] {
                return false;
            }
            i += 1;
        }
        assert(self.args@ =~= other.args@);
        true
    }

    /// One for the predicate and the sizes of the arguments.
    pub fn weight(&self, arena: &TermArena) -> (r: u32)
        requires
            arena.wf(),
            self@.valid(arena),
            self@.lit(arena).weight() <= u32::MAX,
        ensures
            r == self@.lit(arena).weight(),
    {
        match self.try_weight(arena, u32::MAX) {
            Some(w) => w,
            None => 0,
        }
    }

    /// The weight where it is at most `limit`.
    pub(crate) fn try_weight(&self, arena: &TermArena, limit: u32) -> (r: Option<u32>)
        requires
            arena.wf(),
            self@.valid(arena),
        ensures
            match r {
                Some(w) => w == self@.lit(arena).weight() && w <= limit,
                None => self@.lit(arena).weight() > limit,
            },
    {
        if limit == 0 {
            return None;
        }
        let ghost ts = arena.trees(self.args@);
        let mut total: u32 = 1;
        let mut i: usize = 0;
        while i < self.args.len()
            invariant
                arena.wf(),
                self@.valid(arena),
                ts == arena.trees(self.args@),
                i <= self.args@.len(),
                total == 1 + sizes(ts, i as nat),
                total <= limit,
            decreases self.args@.len() - i,
        {
            proof {
                lemma_sizes_monotonic(ts, (i + 1) as nat, ts.len());
                assert(arena.valid(self@.args[i as int]));
            }
            match arena.try_size(self.args[i], limit - total) {
                Some(n) => {
                    total = total + n;
                },
                None => {
                    return None;
                },
            }
            i += 1;
        }
        Some(total)
    }

    /// Writes the literal as text: `P(a, X0)` or `~P(a, X0)`.
    pub fn display(&self, arena: &TermArena, symbols: &SymbolTable) -> (r: String)
        requires
            arena.wf(),
            self@.valid(arena),
            lit_named(self@.lit(arena), symbols@.len()),
        ensures
            r@ == lit_text(self@.lit(arena), symbols@),
    {
        let mut out = String::new();
        self.push_literal(arena, symbols, &mut out);
        assert(out@ =~= lit_text(self@.lit(arena), symbols@));
        out
    }

    fn push_literal(&self, arena: &TermArena, symbols: &SymbolTable, out: &mut String)
        requires
            arena.wf(),
            self@.valid(arena),
            lit_named(self@.lit(arena), symbols@.len()),
        ensures
            final(out)@ == old(out)@ + lit_text(self@.lit(arena), symbols@),
    {
        let ghost sign: Seq<char> = if self.polarity {
            Seq::empty()
        } else {
            "~"@
        };
        let ghost l = self@.lit(arena);
        if !self.polarity {
            out.append("~");
        }
        assert(out@ =~= old(out)@ + sign);
        out.append(symbols.name(self.predicate));
        if self.args.len() == 0 {
            assert(out@ =~= old(out)@ + lit_text(l, symbols@));
            return;
        }
        out.append("(");
        let ghost head = old(out)@ + sign + symbols@[self.predicate as int] + "("@;
        let mut i: usize = 0;
        while i < self.args.len()
            invariant
                arena.wf(),
                self@.valid(arena),
                l == self@.lit(arena),
                lit_named(l, symbols@.len()),
                i <= self.args@.len(),
                out@ == head + terms_text(l.args, i as nat, symbols@),
            decreases self.args@.len() - i,
        {
            if i > 0 {
                out.append(", ");
            }
            proof {
                assert(arena.valid(self@.args[i as int]));
                assert(l.args[i as int] == arena.tree(self.args@[i as int]));
            }
            arena.push_term(self.args[i], symbols, out);
            assert(out@ =~= head + terms_text(l.args, (i + 1) as nat, symbols@));
            i += 1;
        }
        out.append(")");
        assert(out@ =~= old(out)@ + lit_text(l, symbols@));
    }
}

/// How a clause came about.
#[derive(Debug, PartialEq, Eq)]
pub enum InferenceRule {
    /// A clause of the problem.
    Input,
    /// Resolution of literal `left_lit` of clause `left` with literal
    /// `right_lit` of clause `right`, after renaming apart, under `unifier`.
    Resolution {
        left: ClauseId,
        left_lit: usize,
        right: ClauseId,
        right_lit: usize,
        unifier: Substitution,
    },
    /// Merging of literals `lit_a` and `lit_b` of clause `parent` under
    /// `unifier`.
    Factoring { parent: ClauseId, lit_a: usize, lit_b: usize, unifier: Substitution },
    /// Reserved for equality reasoning.
    Superposition,
    /// Reserved for equality reasoning.
    EqualityResolution,
    /// Reserved for equality reasoning.
    EqualityFactoring,
    /// Reserved for equality reasoning.
    Demodulation,
}

/// An inference rule with its unifier as a map.
#[verifier::ext_equal]
pub enum RuleView {
    Input,
    Resolution {
        left: ClauseId,
        left_lit: usize,
        right: ClauseId,
        right_lit: usize,
        unifier: Map<VarId, TermId>,
    },
    Factoring { parent: ClauseId, lit_a: usize, lit_b: usize, unifier: Map<VarId, TermId> },
    Superposition,
    EqualityResolution,
    EqualityFactoring,
    Demodulation,
}

impl View for InferenceRule {
    type V = RuleView;

    open spec fn view(&self) -> RuleView {
        match *self {
            InferenceRule::Input => RuleView::Input,
            InferenceRule::Resolution { left, left_lit, right, right_lit, unifier } =>
            RuleView::Resolution { left, left_lit, right, right_lit, unifier: unifier@ },
            InferenceRule::Factoring { parent, lit_a, lit_b, unifier } => RuleView::Factoring {
                parent,
                lit_a,
                lit_b,
                unifier: unifier@,
            },
            InferenceRule::Superposition => RuleView::Superposition,
            InferenceRule::EqualityResolution => RuleView::EqualityResolution,
            InferenceRule::EqualityFactoring => RuleView::EqualityFactoring,
            InferenceRule::Demodulation => RuleView::Demodulation,
        }
    }
}

impl Clone for InferenceRule {
    fn clone(&self) -> (r: Self)
        ensures
            r@ == self@,
    {
        match self {
            InferenceRule::Input => InferenceRule::Input,
            InferenceRule::Resolution { left, left_lit, right, right_lit, unifier } =>
            InferenceRule::Resolution {
                left: *left,
                left_lit: *left_lit,
                right: *right,
                right_lit: *right_lit,
                unifier: unifier.clone(),
            },
            InferenceRule::Factoring { parent, lit_a, lit_b, unifier } =>
            InferenceRule::Factoring {
                parent: *parent,
                lit_a: *lit_a,
                lit_b: *lit_b,
                unifier: unifier.clone(),
            },
            InferenceRule::Superposition => InferenceRule::Superposition,
            InferenceRule::EqualityResolution => InferenceRule::EqualityResolution,
            InferenceRule::EqualityFactoring => InferenceRule::EqualityFactoring,
            InferenceRule::Demodulation => InferenceRule::Demodulation,
        }
    }
}

/// The rule that made a clause, and the clauses it was applied to.
#[derive(Debug)]
pub struct InferenceInfo {
    pub rule: InferenceRule,
    pub parents: Vec<ClauseId>,
}

/// An inference with its contents as mathematical values.
#[verifier::ext_equal]
pub struct InferenceView {
    pub rule: RuleView,
    pub parents: Seq<ClauseId>,
}

impl View for InferenceInfo {
    type V = InferenceView;

    open spec fn view(&self) -> InferenceView {
        InferenceView { rule: self.rule@, parents: self.parents@ }
    }
}

impl Clone for InferenceInfo {
    fn clone(&self) -> (r: Self)
        ensures
            r@ == self@,
    {
        InferenceInfo { rule: self.rule.clone(), parents: self.parents.clone() }
    }
}

impl InferenceInfo {
    /// The inference of a clause of the problem: it has no parents.
    pub fn input() -> (r: Self)
        ensures
            r@ == (InferenceView { rule: RuleView::Input, parents: Seq::empty() }),
    {
        InferenceInfo { rule: InferenceRule::Input, parents: Vec::new() }
    }

    /// An inference by `rule` from `parents`.
    pub fn from_rule(rule: InferenceRule, parents: Vec<ClauseId>) -> (r: Self)
        ensures
            r == (InferenceInfo { rule, parents }),
    {
        InferenceInfo { rule, parents }
    }
}

/// A disjunction of literals with its provenance. The empty clause is false.
#[derive(Debug)]
pub struct Clause {
    pub id: ClauseId,
    pub literals: Vec<Literal>,
    /// Position in the order of creation.
    pub age: u32,
    /// Sum of the weights of the literals.
    pub weight: u32,
    pub inference: InferenceInfo,
}

/// A clause with its contents as mathematical values.
#[verifier::ext_equal]
pub struct ClauseView {
    pub id: ClauseId,
    pub literals: Seq<LitIds>,
    pub age: u32,
    pub weight: u32,
    pub inference: InferenceView,
}

impl View for Clause {
    type V = ClauseView;

    open spec fn view(&self) -> ClauseView {
        ClauseView {
            id: self.id,
            literals: views(self.literals@),
            age: self.age,
            weight: self.weight,
            inference: self.inference@,
        }
    }
}

/// Clones every literal.
pub(crate) fn clone_literals(ls: &Vec<Literal>) -> (r: Vec<Literal>)
    ensures
        views(r@) == views(ls@),
{
    let mut out: Vec<Literal> = Vec::new();
    let mut i: usize = 0;
    while i < ls.len()
        invariant
            i <= ls@.len(),
            out@.len() == i,
            forall|k: int| 0 <= k < i ==> (#[trigger] out@[k])@ == ls@[k]@,
        decreases ls@.len() - i,
    {
        out.push(ls[i].clone());
        i += 1;
    }
    assert(views(out@) =~= views(ls@));
    out
}

impl Clone for Clause {
    fn clone(&self) -> (r: Self)
        ensures
            r@ == self@,
    {
        Clause {
            id: self.id,
            literals: clone_literals(&self.literals),
            age: self.age,
            weight: self.weight,
            inference: self.inference.clone(),
        }
    }
}

/// The text of a clause: its literals between bars, or the falsity sign.
pub open spec fn clause_text(ls: Seq<Lit>, names: Seq<Seq<char>>) -> Seq<char> {
    if ls.len() == 0 {
        "⊥"@
    } else {
        join(Seq::new(ls.len(), |i: int| lit_text(ls[i], names)), " | "@)
    }
}

impl Clause {
    /// Whether this is the empty clause.
    pub fn is_empty(&self) -> (r: bool)
        ensures
            r == (self@.literals.len() == 0),
    {
        self.literals.len() == 0
    }

    /// Number of literals.
    pub fn num_literals(&self) -> (r: usize)
        ensures
            r == self@.literals.len(),
    {
        self.literals.len()
    }

    /// Writes the clause as text.
    pub fn display(&self, arena: &TermArena, symbols: &SymbolTable) -> (r: String)
        requires
            arena.wf(),
            lits_valid(self@.literals, arena),
            forall|i: int|
                0 <= i < self@.literals.len() ==> lit_named(
                    (#[trigger] self@.literals[i]).lit(arena),
                    symbols@.len(),
                ),
        ensures
            r@ == clause_text(lits(self@.literals, arena), symbols@),
    {
        if self.literals.len() == 0 {
            return "⊥".to_owned();
        }
        let ghost ls = lits(self@.literals, arena);
        let ghost texts = Seq::new(ls.len(), |i: int| lit_text(ls[i], symbols@));
        let mut out = String::new();
        let mut i: usize = 0;
        assert(texts.take(0) =~= Seq::empty());
        assert(out@ =~= join(texts.take(0), " | "@));
        while i < self.literals.len()
            invariant
                arena.wf(),
                lits_valid(self@.literals, arena),
                forall|i: int|
                    0 <= i < self@.literals.len() ==> lit_named(
                        (#[trigger] self@.literals[i]).lit(arena),
                        symbols@.len(),
                    ),
                ls == lits(self@.literals, arena),
                texts == Seq::new(ls.len(), |i: int| lit_text(ls[i], symbols@)),
                i <= self.literals@.len(),
                out@ == join(texts.take(i as int), " | "@),
            decreases self.literals@.len() - i,
        {
            if i > 0 {
                out.append(" | ");
            }
            proof {
                assert(self@.literals[i as int] == self.literals@[i as int]@);
                assert(texts.take(i + 1).drop_last() =~= texts.take(i as int));
                assert(texts.take(i + 1).last() == texts[i as int]);
            }
            self.literals[i].push_literal(arena, symbols, &mut out);
            assert(out@ =~= join(texts.take(i + 1), " | "@));
            i += 1;
        }
        assert(texts.take(i as int) =~= texts);
        out
    }
}

/// Every clause of a problem, in order of creation. Clauses are never removed.
#[derive(Debug)]
pub struct ClauseStore {
    clauses: Vec<Clause>,
    next_age: u32,
}

impl View for ClauseStore {
    type V = Seq<ClauseView>;

    closed spec fn view(&self) -> Seq<ClauseView> {
        Seq::new(self.clauses@.len(), |i: int| self.clauses@[i]@)
    }
}

/// The weight of a list of literals where it is at most `u32::MAX`.
pub(crate) fn try_clause_weight(literals: &Vec<Literal>, arena: &TermArena) -> (r: Option<u32>)
    requires
        arena.wf(),
        lits_valid(views(literals@), arena),
    ensures
        ({
            let ls = lits(views(literals@), arena);
            match r {
                Some(w) => w == weights(ls, ls.len()),
                None => weights(ls, ls.len()) > u32::MAX,
            }
        }),
{
    let ghost ls = lits(views(literals@), arena);
    let mut total: u32 = 0;
    let mut i: usize = 0;
    while i < literals.len()
        invariant
            arena.wf(),
            lits_valid(views(literals@), arena),
            ls == lits(views(literals@), arena),
            i <= literals@.len(),
            total == weights(ls, i as nat),
        decreases literals@.len() - i,
    {
        proof {
            lemma_weights_monotonic(ls, (i + 1) as nat, ls.len());
            assert(views(literals@)[i as int].valid(arena));
        }
        match literals[i].try_weight(arena, u32::MAX - total) {
            Some(w) => {
                total = total + w;
            },
            None => {
                return None;
            },
        }
        i += 1;
    }
    Some(total)
}

impl ClauseStore {
    /// The store's invariant: ids and ages are positions.
    pub closed spec fn wf(&self) -> bool {
        &&& self.clauses@.len() <= u32::MAX
        &&& self.next_age == self.clauses@.len()
        &&& forall|i: int|
            0 <= i < self.clauses@.len() ==> (#[trigger] self.clauses@[i]).id == i
                && self.clauses@[i].age == i
    }

    /// Ids and ages are positions in the store.
    pub proof fn ids_are_positions(&self)
        requires
            self.wf(),
        ensures
            self@.len() <= u32::MAX,
            forall|i: int|
                0 <= i < self@.len() ==> (#[trigger] self@[i]).id == i && self@[i].age == i,
    {
        assert forall|i: int| 0 <= i < self@.len() implies (#[trigger] self@[i]).id == i
            && self@[i].age == i by {
            assert(self@[i] == self.clauses@[i]@);
        }
    }

    /// An empty store.
    pub fn new() -> (r: Self)
        ensures
            r.wf(),
            r@ == Seq::<ClauseView>::empty(),
    {
        let r = ClauseStore { clauses: Vec::new(), next_age: 0 };
        assert(r@ =~= Seq::<ClauseView>::empty());
        r
    }

    /// Adds a clause. It gets the next id and age, and the sum of its literals'
    /// weights as its weight.
    pub fn insert(
        &mut self,
        literals: Vec<Literal>,
        inference: InferenceInfo,
        arena: &TermArena,
    ) -> (r: ClauseId)
        requires
            old(self).wf(),
            old(self)@.len() < u32::MAX,
            arena.wf(),
            lits_valid(views(literals@), arena),
            weights(lits(views(literals@), arena), literals@.len()) <= u32::MAX,
        ensures
            final(self).wf(),
            r == old(self)@.len(),
            final(self)@ == old(self)@.push(
                ClauseView {
                    id: old(self)@.len() as ClauseId,
                    literals: views(literals@),
                    age: old(self)@.len() as u32,
                    weight: weights(lits(views(literals@), arena), literals@.len()) as u32,
                    inference: inference@,
                },
            ),
    {
        let weight: u32 = match try_clause_weight(&literals, arena) {
            Some(w) => w,
            None => 0,
        };
        let id: ClauseId = self.clauses.len() as ClauseId;
        let age: u32 = self.next_age;
        self.next_age = age + 1;
        self.clauses.push(Clause { id, literals, age, weight, inference });
        assert(self@ =~= old(self)@.push(self.clauses@[id as int]@));
        id
    }

    /// The clause with this id.
    pub fn get(&self, id: ClauseId) -> (r: &Clause)
        requires
            id < self@.len(),
        ensures
            r@ == self@[id as int],
    {
        &self.clauses[id as usize]
    }

    /// Number of clauses.
    pub fn len(&self) -> (r: usize)
        ensures
            r == self@.len(),
    {
        self.clauses.len()
    }

    /// Whether the store holds no clause.
    pub fn is_empty(&self) -> (r: bool)
        ensures
            r == (self@.len() == 0),
    {
        self.clauses.len() == 0
    }

    /// All clauses, in order of creation.
    pub fn iter(&self) -> (r: std::slice::Iter<'_, Clause>)
        ensures
            IteratorSpec::remaining(&r).len() == self@.len(),
            forall|i: int|
                0 <= i < self@.len() ==> (*#[trigger] IteratorSpec::remaining(&r)[i])@ == self@[i],
    {
        broadcast use vstd::std_specs::slice::group_slice_axioms;

        self.clauses.as_slice().iter()
    }
}

/// The parents that name one of `n` clauses, as positions.
pub open spec fn known_parents(parents: Seq<ClauseId>, n: nat) -> Seq<usize>
    decreases parents.len(),
{
    if parents.len() == 0 {
        Seq::empty()
    } else if parents.last() < n {
        known_parents(parents.drop_last(), n).push(parents.last() as usize)
    } else {
        known_parents(parents.drop_last(), n)
    }
}

/// The graph in which every clause points to its parents.
pub open spec fn parent_graph(store: Seq<ClauseView>) -> Graph {
    Seq::new(store.len(), |i: int| known_parents(store[i].inference.parents, store.len()))
}

/// Whether the clause `from` and its ancestors have all their parents in the
/// store.
pub open spec fn traceable(store: Seq<ClauseView>, from: ClauseId) -> bool {
    forall|x: usize, j: int|
        #![trigger store[x as int].inference.parents[j]]
        x < store.len() && reaches(parent_graph(store), from as usize, x) && 0 <= j
            < store[x as int].inference.parents.len() ==> store[x as int].inference.parents[j]
            < store.len()
}

/// The clause `from` and its ancestors in the order in which a depth-first
/// search through the parents leaves them.
pub open spec fn trace(store: Seq<ClauseView>, from: ClauseId) -> Seq<ClauseId> {
    let order = post_order(parent_graph(store), from as usize);
    Seq::new(order.len(), |i: int| order[i] as ClauseId)
}

/// Known parents are in the store and are parents.
pub proof fn lemma_known_parents(parents: Seq<ClauseId>, n: nat)
    ensures
        forall|j: int|
            0 <= j < known_parents(parents, n).len() ==> {
                let p = #[trigger] known_parents(parents, n)[j];
                p < n && p <= u32::MAX && parents.contains(p as ClauseId)
            },
        (forall|j: int| 0 <= j < parents.len() ==> #[trigger] parents[j] < n) ==> known_parents(
            parents,
            n,
        ) == Seq::new(parents.len(), |j: int| parents[j] as usize),
    decreases parents.len(),
{
    if parents.len() > 0 {
        let rest = parents.drop_last();
        lemma_known_parents(rest, n);
        let known = known_parents(parents, n);
        assert forall|j: int| 0 <= j < known.len() implies {
            let p = #[trigger] known[j];
            p < n && p <= u32::MAX && parents.contains(p as ClauseId)
        } by {
            if j < known_parents(rest, n).len() {
                let p = known_parents(rest, n)[j];
                assert(known[j] == p);
                let i = choose|i: int| 0 <= i < rest.len() && rest[i] == p as ClauseId;
                assert(parents[i] == p as ClauseId);
            } else {
                assert(known[j] == parents.last() as usize);
                assert(parents[parents.len() - 1] == parents.last());
            }
        }
        if forall|j: int| 0 <= j < parents.len() ==> #[trigger] parents[j] < n {
            assert forall|j: int| 0 <= j < rest.len() implies #[trigger] rest[j] < n by {
                assert(rest[j] == parents[j]);
            }
            assert(parents[parents.len() - 1] < n);
            assert(known =~= Seq::new(parents.len(), |j: int| parents[j] as usize));
        }
    } else {
        assert(known_parents(parents, n) =~= Seq::new(
            parents.len(),
            |j: int| parents[j] as usize,
        ));
    }
}

/// All edges of a parent graph stay inside it.
pub proof fn lemma_parent_graph_closed(store: Seq<ClauseView>)
    ensures
        closed(parent_graph(store)),
{
    let g = parent_graph(store);
    assert forall|k: int, j: int| 0 <= k < g.len() && 0 <= j < g[k].len() implies
        #[trigger] g[k][j] < g.len() by {
        lemma_known_parents(store[k].inference.parents, store.len());
    }
}

/// A proof trace holds the clause it starts from, last, and exactly its
/// ancestors, each once. Where no clause is its own ancestor, each clause
/// comes after all of its parents.
pub proof fn trace_is_a_derivation(store: Seq<ClauseView>, from: ClauseId)
    requires
        from < store.len() <= u32::MAX,
        traceable(store, from),
    ensures
        ({
            let t = trace(store, from);
            &&& t.len() > 0
            &&& t.last() == from
            &&& t.no_duplicates()
            &&& forall|i: int| 0 <= i < t.len() ==> #[trigger] t[i] < store.len()
            &&& forall|x: ClauseId| #[trigger]
                t.contains(x) <==> reaches(parent_graph(store), from as usize, x as usize)
            &&& acyclic(parent_graph(store)) ==> forall|i: int, j: int|
                #![trigger store[t[i] as int].inference.parents[j]]
                0 <= i < t.len() && 0 <= j < store[t[i] as int].inference.parents.len()
                    ==> t.take(i).contains(store[t[i] as int].inference.parents[j])
        }),
{
    let g = parent_graph(store);
    let o = post_order(g, from as usize);
    let t = trace(store, from);
    lemma_parent_graph_closed(store);
    post_order_lists_reached(g, from as usize);
    assert(t.no_duplicates()) by {
        assert forall|i: int, j: int| 0 <= i < t.len() && 0 <= j < t.len() && i != j implies t[i]
            != t[j] by {
            assert(o[i] < g.len() && o[j] < g.len());
        }
    }
    assert forall|i: int| 0 <= i < t.len() implies #[trigger] t[i] < store.len() by {
        assert(o[i] < g.len());
    }
    assert forall|x: ClauseId| #[trigger] t.contains(x) <==> reaches(
        g,
        from as usize,
        x as usize,
    ) by {
        if t.contains(x) {
            let i = choose|i: int| 0 <= i < t.len() && t[i] == x;
            assert(o[i] < g.len());
            assert(o.contains(o[i]));
        }
        if o.contains(x as usize) {
            let i = choose|i: int| 0 <= i < o.len() && o[i] == x as usize;
            assert(t[i] == x);
        }
    }
    if acyclic(g) {
        assert forall|i: int, j: int|
            #![trigger store[t[i] as int].inference.parents[j]]
            0 <= i < t.len() && 0 <= j < store[t[i] as int].inference.parents.len() implies t.take(
            i,
        ).contains(store[t[i] as int].inference.parents[j]) by {
            assert(o[i] < g.len());
            let k = o[i];
            let parents = store[k as int].inference.parents;
            lemma_known_parents(parents, store.len());
            assert(o.contains(k));
            assert forall|j: int| 0 <= j < parents.len() implies #[trigger] parents[j]
                < store.len() by {
                assert(store[k as int].inference.parents[j] < store.len());
            }
            assert(g[o[i] as int][j] == parents[j] as usize);
            assert(o.take(i).contains(g[o[i] as int][j]));
            let q = choose|q: int| 0 <= q < o.take(i).len() && o.take(i)[q] == parents[j] as usize;
            assert(t.take(i)[q] == parents[j]);
        }
    }
}

/// Where every parent has a smaller id than its child, no clause is its own
/// ancestor.
pub proof fn smaller_parents_make_no_cycle(store: Seq<ClauseView>)
    requires
        parents_first(store),
        store.len() <= u32::MAX,
    ensures
        acyclic(parent_graph(store)),
{
    let g = parent_graph(store);
    let rank = |x: usize| x as nat;
    assert(falls(g, rank)) by {
        assert forall|k: usize, j: int| k < g.len() && 0 <= j < g[k as int].len() implies rank(
            #[trigger] g[k as int][j],
        ) < rank(k) by {
            let parents = store[k as int].inference.parents;
            lemma_known_parents(parents, store.len());
            let p = g[k as int][j];
            let i = choose|i: int| 0 <= i < parents.len() && parents[i] == p as ClauseId;
            assert(store[k as int].inference.parents[i] < k);
        }
    }
}

/// Whether every parent has a smaller id than its child.
pub open spec fn parents_first(store: Seq<ClauseView>) -> bool {
    forall|k: int, j: int|
        0 <= k < store.len() && 0 <= j < store[k].inference.parents.len() ==> (
        #[trigger] store[k].inference.parents[j]) < k
}

impl ClauseStore {
    fn parent_lists(&self) -> (r: Vec<Vec<usize>>)
        ensures
            graph_of(r@) == parent_graph(self@),
    {
        let n: usize = self.clauses.len();
        let mut adj: Vec<Vec<usize>> = Vec::new();
        let mut i: usize = 0;
        while i < n
            invariant
                n == self.clauses@.len(),
                i <= n,
                adj@.len() == i,
                forall|k: int|
                    0 <= k < i ==> (#[trigger] adj@[k])@ == known_parents(
                        self.clauses@[k].inference.parents@,
                        n as nat,
                    ),
            decreases n - i,
        {
            let parents = &self.clauses[i].inference.parents;
            let mut known: Vec<usize> = Vec::new();
            let mut j: usize = 0;
            while j < parents.len()
                invariant
                    j <= parents@.len(),
                    known@ == known_parents(parents@.take(j as int), n as nat),
                decreases parents@.len() - j,
            {
                assert(parents@.take(j + 1).drop_last() =~= parents@.take(j as int));
                if (parents[j] as usize) < n {
                    known.push(parents[j] as usize);
                }
                j += 1;
            }
            assert(parents@.take(j as int) =~= parents@);
            adj.push(known);
            i += 1;
        }
        assert(graph_of(adj@) =~= parent_graph(self@)) by {
            assert forall|k: int| 0 <= k < n implies graph_of(adj@)[k] == parent_graph(self@)[k] by {
                assert(self@[k] == self.clauses@[k]@);
                assert(adj@[k]@ == known_parents(self.clauses@[k].inference.parents@, n as nat));
            }
        }
        adj
    }

    /// The clause `from` and all of its ancestors: parents before children,
    /// `from` last.
    pub fn proof_trace(&self, from: ClauseId) -> (r: Vec<ClauseId>)
        requires
            self.wf(),
            from < self@.len(),
            traceable(self@, from),
        ensures
            r@ == trace(self@, from),
    {
        let adj: Vec<Vec<usize>> = self.parent_lists();
        proof {
            lemma_parent_graph_closed(self@);
        }
        let order: Vec<usize> = depth_first(&adj, from as usize);
        let mut r: Vec<ClauseId> = Vec::new();
        let mut i: usize = 0;
        while i < order.len()
            invariant
                i <= order@.len(),
                r@.len() == i,
                forall|k: int| 0 <= k < i ==> #[trigger] r@[k] == order@[k] as ClauseId,
            decreases order@.len() - i,
        {
            r.push(order[i] as ClauseId);
            i += 1;
        }
        assert(r@ =~= trace(self@, from));
        r
    }
}

impl Default for ClauseStore {
    fn default() -> (r: Self)
        ensures
            r.wf(),
            r@ == Seq::<ClauseView>::empty(),
    {
        ClauseStore::new()
    }
}

// ---------------------------------------------------------------------------
// Laws.
// ---------------------------------------------------------------------------
impl LitIds {
    /// The literal of the other polarity.
    pub open spec fn negation(self) -> LitIds {
        LitIds { positive: !self.positive, ..self }
    }

    /// Negating twice changes nothing.
    pub proof fn negation_is_an_involution(self)
        ensures
            self.negation().negation() == self,
    {
    }

    /// Being each other's negation goes both ways.
    pub proof fn complement_is_symmetric(self, other: LitIds)
        ensures
            other == self.negation() <==> self == other.negation(),
    {
    }

    /// Literals of one arena are the same exactly when they have the same sign,
    /// predicate and argument ids.
    pub proof fn ids_are_literals(self, other: LitIds, arena: &TermArena)
        requires
            arena.wf(),
            self.valid(arena),
            other.valid(arena),
        ensures
            self.lit(arena) == other.lit(arena) <==> self == other,
    {
        if self.lit(arena) == other.lit(arena) {
            let ss = arena.trees(self.args);
            let ts = arena.trees(other.args);
            assert(ss.len() == self.args.len() && ts.len() == other.args.len());
            assert forall|i: int| 0 <= i < self.args.len() implies self.args[i]
                == other.args[i] by {
                assert(ss[i] == ts[i]);
                arena.ids_are_trees(self.args[i], other.args[i]);
            }
            assert(self.args =~= other.args);
        }
    }
}

} // verus!
