//! The given-clause loop: derives clauses until one is empty, none is left to
//! process, or a limit is reached.
use crate::clause::{
    lemma_lits_extends, lits, lits_valid, parents_first, smaller_parents_make_no_cycle, trace,
    trace_is_a_derivation, traceable, try_clause_weight, views, weights, ClauseId, ClauseStore,
    ClauseView, InferenceInfo, InferenceView, Lit, LitIds, Literal, RuleView,
};
use crate::inference::{
    after_factoring, after_renaming, after_resolving, both_renamed, clash, factor_at,
    factoring_entry, found, in_order, lemma_factoring_entry_extends, lemma_factoring_merges,
    lemma_resolution_entry_extends, lemma_resolution_resolves, mergeable, pair_before, pair_of,
    renamed, renamed_apart, renaming_keeps_clashes, resolution_entry, resolvable, resolvent,
    stock, try_factor, try_resolve, InferenceResult, Stock, VarGen,
};
use crate::parser::{
    clause_lits, clauses_valid, known, parse_problem, problem_is_no_larger_than_its_text,
    problem_of, short_texts_can_be_read, ErrorView, ParseError,
};
use crate::proof_dag::{
    distinct, earlier_parents_are_valid, first_empty, implied_parents, lemma_first_empty,
    mentioned, mentions, mentions_valid, unifier_of, valid,
};
use crate::semantics::{
    empty_clause_fails, factoring_is_sound, holds, renamings_hold, resolution_is_sound, Model,
};
use crate::term::{SymbolTable, TermArena, TermId, VarId};
use crate::tptp::{
    parse_tptp_problem, short_tptp_texts_can_be_read, tptp_problem_is_no_larger_than_its_text,
    tptp_problem_of,
};
use crate::unify::bound_valid;
use std::collections::VecDeque;
use vstd::prelude::*;

verus! {

/// How a saturation run ended.
#[derive(Debug, Clone, Copy, PartialEq, Eq, Structural)]
pub enum SaturationResult {
    /// The empty clause was derived: the input is contradictory.
    Proved(ClauseId),
    /// Every clause was processed and none is empty.
    Saturated,
    /// The limit on clauses was reached, or ids ran out.
    ClauseLimitReached,
}

/// One proof search: its terms, its clauses, and which of them were processed.
pub struct Saturation {
    arena: TermArena,
    clause_store: ClauseStore,
    var_gen: VarGen,
    active: Vec<ClauseId>,
    passive: VecDeque<ClauseId>,
}

/// Which inference made a clause: the clause that was being processed, its
/// partner (-1 for factoring), and the positions of the two literals.
#[verifier::ext_equal]
pub struct Key {
    pub given: int,
    pub partner: int,
    pub a: int,
    pub b: int,
}

/// The inference of a derived clause, `None` for an input clause.
pub open spec fn key_of(rule: RuleView) -> Option<Key> {
    match rule {
        RuleView::Resolution { left, left_lit, right, right_lit, .. } => Some(
            Key {
                given: left as int,
                partner: right as int,
                a: left_lit as int,
                b: right_lit as int,
            },
        ),
        RuleView::Factoring { parent, lit_a, lit_b, .. } => Some(
            Key { given: parent as int, partner: -1, a: lit_a as int, b: lit_b as int },
        ),
        _ => None,
    }
}

/// The order in which inferences are made.
pub open spec fn key_before(x: Key, y: Key) -> bool {
    ||| x.given < y.given
    ||| x.given == y.given && x.partner < y.partner
    ||| x.given == y.given && x.partner == y.partner && pair_before((x.a, x.b), (y.a, y.b))
}

/// The literals of every clause.
pub open spec fn contents(store: Seq<ClauseView>, arena: &TermArena) -> Seq<Seq<Lit>> {
    Seq::new(store.len(), |k: int| lits(store[k].literals, arena))
}

/// The inferences of all clauses.
pub open spec fn keys(store: Seq<ClauseView>) -> Seq<Option<Key>> {
    Seq::new(store.len(), |k: int| key_of(store[k].inference.rule))
}

/// The ids from `lo` up to `hi`.
pub open spec fn id_range(lo: int, hi: int) -> Seq<ClauseId> {
    Seq::new((hi - lo) as nat, |i: int| (lo + i) as ClauseId)
}

/// Whether the derived clauses stand in the order of their inferences, so that
/// none is made twice, and every partner is an earlier clause.
pub open spec fn ordered(ks: Seq<Option<Key>>) -> bool {
    &&& forall|k: int, l: int|
        0 <= k < l < ks.len() && (#[trigger] ks[k]) is Some && (#[trigger] ks[l]) is Some
            ==> key_before(ks[k]->Some_0, ks[l]->Some_0)
    &&& forall|k: int|
        0 <= k < ks.len() && (#[trigger] ks[k]) is Some ==> ks[k]->Some_0.partner
            < ks[k]->Some_0.given
}

/// Whether every factor of the clause `q` was derived.
pub open spec fn factors_done(cs: Seq<Seq<Lit>>, ks: Seq<Option<Key>>, q: int) -> bool {
    forall|i: int, j: int|
        0 <= i < j < cs[q].len() && mergeable(#[trigger] cs[q][i], #[trigger] cs[q][j])
            ==> ks.contains(Some(Key { given: q, partner: -1, a: i, b: j }))
}

/// Whether every resolvent of the clauses `q` and `p` was derived.
pub open spec fn resolvents_done(cs: Seq<Seq<Lit>>, ks: Seq<Option<Key>>, q: int, p: int) -> bool {
    forall|i: int, j: int|
        0 <= i < cs[q].len() && 0 <= j < cs[p].len() && clash(
            #[trigger] cs[q][i],
            #[trigger] cs[p][j],
        ) ==> ks.contains(Some(Key { given: q, partner: p, a: i, b: j }))
}

/// Whether every factor of the clause `q` upon positions before `at` was
/// derived.
pub open spec fn factors_done_before(
    cs: Seq<Seq<Lit>>,
    ks: Seq<Option<Key>>,
    q: int,
    at: (int, int),
) -> bool {
    forall|i: int, j: int|
        0 <= i < j < cs[q].len() && mergeable(#[trigger] cs[q][i], #[trigger] cs[q][j])
            && pair_before((i, j), at) ==> ks.contains(
            Some(Key { given: q, partner: -1, a: i, b: j }),
        )
}

/// Whether every resolvent of the clauses `q` and `p` upon positions before
/// `at` was derived.
pub open spec fn resolvents_done_before(
    cs: Seq<Seq<Lit>>,
    ks: Seq<Option<Key>>,
    q: int,
    p: int,
    at: (int, int),
) -> bool {
    forall|i: int, j: int|
        0 <= i < cs[q].len() && 0 <= j < cs[p].len() && clash(
            #[trigger] cs[q][i],
            #[trigger] cs[p][j],
        ) && pair_before((i, j), at) ==> ks.contains(
            Some(Key { given: q, partner: p, a: i, b: j }),
        )
}

/// The stock after the factors of the clause `q` and its resolvents with the
/// first `c` of the `active` clauses were derived.
pub open spec fn used_pairs(
    s: Stock,
    cs: Seq<Seq<Lit>>,
    q: int,
    active: Seq<ClauseId>,
    c: nat,
) -> Stock
    decreases c,
{
    if c == 0 {
        after_factoring(s, cs[q])
    } else {
        after_resolving(
            used_pairs(s, cs, q, active, (c - 1) as nat),
            cs[q],
            cs[active[c - 1] as int],
        )
    }
}

/// The stock after the `active` clauses from position `from` up to `to` were
/// processed.
pub open spec fn used_steps(
    s: Stock,
    cs: Seq<Seq<Lit>>,
    active: Seq<ClauseId>,
    from: nat,
    to: nat,
) -> Stock
    decreases to,
{
    if to <= from {
        s
    } else {
        used_pairs(
            used_steps(s, cs, active, from, (to - 1) as nat),
            cs,
            active[to - 1] as int,
            active,
            (to - 1) as nat,
        )
    }
}

/// The conclusion of an inference of the clause `q` upon the literals `a` and
/// `b`: a factor where `partner` is negative, else a resolvent with the clause
/// `partner`, both renamed as the stock `s` has it.
pub open spec fn conclusion(
    cs: Seq<Seq<Lit>>,
    q: int,
    partner: int,
    s: Stock,
    a: int,
    b: int,
) -> Seq<Lit> {
    if partner < 0 {
        factor_at(cs[q], a, b)
    } else {
        resolvent(
            renamed(cs[q], s.next),
            renamed(cs[partner], after_renaming(s, cs[q]).next),
            a,
            b,
        )
    }
}

/// The partner in the stage `c` of processing a clause against the `active`
/// ones: none in stage 0, then one after the other.
pub open spec fn stage_partner(active: Seq<ClauseId>, c: int) -> int {
    if c <= 0 {
        -1
    } else {
        active[c - 1] as int
    }
}

/// The stock when the stage `c` begins.
pub open spec fn stage_stock(
    s: Stock,
    cs: Seq<Seq<Lit>>,
    q: int,
    active: Seq<ClauseId>,
    c: int,
) -> Stock {
    if c <= 0 {
        s
    } else {
        used_pairs(s, cs, q, active, (c - 1) as nat)
    }
}

/// Where in a run an inference is made: which of the processed clauses it
/// belongs to, in which stage of its processing, and upon which literals.
pub struct Place {
    pub step: int,
    pub stage: int,
    pub a: int,
    pub b: int,
}

/// The order of a run.
pub open spec fn place_before(x: Place, y: Place) -> bool {
    ||| x.step < y.step
    ||| x.step == y.step && x.stage < y.stage
    ||| x.step == y.step && x.stage == y.stage && pair_before((x.a, x.b), (y.a, y.b))
}

/// Whether the clause `k` is the conclusion of the inference at a place of a
/// run that processes the clauses of `order` from position `from` on, where the
/// stock was `s` when it began.
pub open spec fn made_at(
    cs: Seq<Seq<Lit>>,
    ks: Seq<Option<Key>>,
    order: Seq<ClauseId>,
    from: int,
    s: Stock,
    k: int,
    pl: Place,
) -> bool {
    let q = order[pl.step] as int;
    let partner = stage_partner(order, pl.stage);
    let s1 = used_steps(s, cs, order, from as nat, pl.step as nat);
    &&& from <= pl.step < order.len()
    &&& 0 <= pl.stage <= pl.step
    &&& ks[k] == Some(Key { given: q, partner, a: pl.a, b: pl.b })
    &&& cs[k] == conclusion(
        cs,
        q,
        partner,
        stage_stock(s1, cs, q, order, pl.stage),
        pl.a,
        pl.b,
    )
}

/// Whether the clauses from position `n` on were made at these places, one
/// after the other: in the order of the run, and none twice.
pub open spec fn made_in_order(
    cs: Seq<Seq<Lit>>,
    ks: Seq<Option<Key>>,
    order: Seq<ClauseId>,
    from: int,
    s: Stock,
    n: int,
    places: Seq<Place>,
) -> bool {
    &&& places.len() == cs.len() - n
    &&& forall|i: int|
        0 <= i < places.len() ==> made_at(cs, ks, order, from, s, n + i, #[trigger] places[i])
    &&& forall|i: int, j: int|
        0 <= i < j < places.len() ==> place_before(#[trigger] places[i], #[trigger] places[j])
}

/// Whether the clauses from position `n` on are conclusions of the clauses `q`
/// and `partner`, in order.
spec fn staged(
    cs: Seq<Seq<Lit>>,
    ks: Seq<Option<Key>>,
    n: int,
    q: int,
    partner: int,
    s: Stock,
) -> bool {
    &&& ks.len() == cs.len()
    &&& forall|k: int|
        n <= k < ks.len() ==> {
            &&& (#[trigger] ks[k]) is Some
            &&& ks[k]->Some_0.given == q
            &&& ks[k]->Some_0.partner == partner
            &&& cs[k] == conclusion(cs, q, partner, s, ks[k]->Some_0.a, ks[k]->Some_0.b)
        }
    &&& forall|k: int, l: int|
        n <= k < l < ks.len() ==> pair_before(
            ((#[trigger] ks[k])->Some_0.a, ks[k]->Some_0.b),
            ((#[trigger] ks[l])->Some_0.a, ks[l]->Some_0.b),
        )
}

/// Whether the clause `k` is a conclusion of the stage `c`.
spec fn staged_at(
    cs: Seq<Seq<Lit>>,
    ks: Seq<Option<Key>>,
    k: int,
    q: int,
    active: Seq<ClauseId>,
    s: Stock,
    c: int,
) -> bool {
    let partner = stage_partner(active, c);
    &&& 0 <= c <= active.len()
    &&& ks[k] is Some
    &&& ks[k]->Some_0.given == q
    &&& ks[k]->Some_0.partner == partner
    &&& cs[k] == conclusion(
        cs,
        q,
        partner,
        stage_stock(s, cs, q, active, c),
        ks[k]->Some_0.a,
        ks[k]->Some_0.b,
    )
}

/// Whether the clauses from position `n` on are conclusions of these stages of
/// processing the clause `q`, one after the other.
spec fn given_made(
    cs: Seq<Seq<Lit>>,
    ks: Seq<Option<Key>>,
    n: int,
    q: int,
    active: Seq<ClauseId>,
    s: Stock,
    stages: Seq<int>,
) -> bool {
    &&& ks.len() == cs.len()
    &&& stages.len() == cs.len() - n
    &&& forall|i: int|
        0 <= i < stages.len() ==> staged_at(cs, ks, n + i, q, active, s, #[trigger] stages[i])
    &&& forall|i: int, j: int|
        0 <= i < j < stages.len() ==> {
            ||| (#[trigger] stages[i]) < (#[trigger] stages[j])
            ||| stages[i] == stages[j] && pair_before(
                (ks[n + i]->Some_0.a, ks[n + i]->Some_0.b),
                (ks[n + j]->Some_0.a, ks[n + j]->Some_0.b),
            )
        }
}

/// Whether no more was used than `goal`.
pub open spec fn at_most(now: Stock, goal: Stock) -> bool {
    now.forest.is_prefix_of(goal.forest) && now.next <= goal.next
}

/// Whether the weight of a clause does not fit into 32 bits.
pub open spec fn too_heavy(ls: Seq<Lit>) -> bool {
    weights(ls, ls.len()) > u32::MAX
}

/// Whether a factor of the clause `q` cannot be derived or stored: the terms of
/// the factors do not fit into 32-bit ids, or the store is full or the factor
/// too heavy, while all factors before it were derived.
pub open spec fn factors_blocked(
    cs: Seq<Seq<Lit>>,
    ks: Seq<Option<Key>>,
    q: int,
    s: Stock,
    now: Stock,
    full: bool,
) -> bool {
    &&& at_most(now, after_factoring(s, cs[q]))
    &&& {
        ||| !after_factoring(s, cs[q]).in_range()
        ||| exists|i: int, j: int|
            0 <= i < j < cs[q].len() && mergeable(#[trigger] cs[q][i], #[trigger] cs[q][j])
                && factors_done_before(cs, ks, q, (i, j)) && (full || too_heavy(
                factor_at(cs[q], i, j),
            ))
    }
}

/// Whether a resolvent of the clauses `q` and `p` cannot be derived or stored:
/// the terms or variables of the resolvents do not fit into 32-bit ids, or the
/// store is full or the resolvent too heavy, while all resolvents before it
/// were derived.
pub open spec fn resolvents_blocked(
    cs: Seq<Seq<Lit>>,
    ks: Seq<Option<Key>>,
    q: int,
    p: int,
    s: Stock,
    now: Stock,
    full: bool,
) -> bool {
    let d1 = renamed(cs[q], s.next);
    let d2 = renamed(cs[p], after_renaming(s, cs[q]).next);
    &&& at_most(now, after_resolving(s, cs[q], cs[p]))
    &&& {
        ||| !after_resolving(s, cs[q], cs[p]).in_range()
        ||| exists|i: int, j: int|
            0 <= i < d1.len() && 0 <= j < d2.len() && resolvable(
                #[trigger] d1[i],
                #[trigger] d2[j],
            ) && resolvents_done_before(cs, ks, q, p, (i, j)) && (full || too_heavy(
                resolvent(d1, d2, i, j),
            ))
    }
}

/// Whether the processing of the clause `q` against the `active` ones cannot
/// go on after its factors and its resolvents with the first `c - 1` of them.
pub open spec fn blocked_at(
    cs: Seq<Seq<Lit>>,
    ks: Seq<Option<Key>>,
    active: Seq<ClauseId>,
    q: int,
    s: Stock,
    now: Stock,
    full: bool,
    c: nat,
) -> bool {
    if c == 0 {
        factors_blocked(cs, ks, q, s, now, full)
    } else {
        &&& c <= active.len()
        &&& factors_done(cs, ks, q)
        &&& resolved_up_to(cs, ks, active, q, c - 1)
        &&& resolvents_blocked(
            cs,
            ks,
            q,
            active[c - 1] as int,
            used_pairs(s, cs, q, active, (c - 1) as nat),
            now,
            full,
        )
    }
}

/// Whether the next inference of the clause `q` does not fit into 32-bit
/// numbers, where the stock was `s` when its processing began.
pub open spec fn blocked(
    cs: Seq<Seq<Lit>>,
    ks: Seq<Option<Key>>,
    active: Seq<ClauseId>,
    q: int,
    s: Stock,
    now: Stock,
    full: bool,
) -> bool {
    exists|c: nat| #[trigger] blocked_at(cs, ks, active, q, s, now, full, c)
}

/// Whether everything that is derived before the inference `k`, while its
/// clause is processed against the `active` ones, was derived, and nothing
/// after the pair of clauses that it belongs to. The stock was `s` when the
/// processing began.
pub open spec fn worked_before(
    cs: Seq<Seq<Lit>>,
    ks: Seq<Option<Key>>,
    active: Seq<ClauseId>,
    k: Key,
    s: Stock,
    now: Stock,
) -> bool {
    if k.partner < 0 {
        &&& factors_done_before(cs, ks, k.given, (k.a, k.b))
        &&& now == used_pairs(s, cs, k.given, active, 0)
    } else {
        &&& factors_done(cs, ks, k.given)
        &&& exists|c: int| #[trigger] resolved_up_to(cs, ks, active, k.given, c)
            && c < active.len() && active[c] == k.partner && now == used_pairs(
            s,
            cs,
            k.given,
            active,
            (c + 1) as nat,
        )
        &&& resolvents_done_before(cs, ks, k.given, k.partner, (k.a, k.b))
    }
}

/// Whether every resolvent of the clause `q` with the first `c` of the
/// `active` ones was derived.
pub open spec fn resolved_up_to(
    cs: Seq<Seq<Lit>>,
    ks: Seq<Option<Key>>,
    active: Seq<ClauseId>,
    q: int,
    c: int,
) -> bool {
    &&& 0 <= c <= active.len()
    &&& forall|b: int| 0 <= b < c ==> resolvents_done(cs, ks, q, #[trigger] active[b] as int)
}

/// Whether the clause `q` is not empty and was processed: every factor of it
/// and every resolvent with an earlier clause was derived.
pub open spec fn processed(cs: Seq<Seq<Lit>>, ks: Seq<Option<Key>>, q: int) -> bool {
    &&& cs[q].len() > 0
    &&& factors_done(cs, ks, q)
    &&& forall|p: int| 0 <= p < q ==> #[trigger] resolvents_done(cs, ks, q, p)
}

/// Whether the derivation of a clause is correct: an input clause has no
/// parents, and any other is a resolvent or factor of clauses in `store`.
pub open spec fn justified(
    store: Seq<ClauseView>,
    arena: &TermArena,
    concl: Seq<LitIds>,
    info: InferenceView,
) -> bool {
    match info.rule {
        RuleView::Input => info.parents.len() == 0,
        RuleView::Resolution { left, right, .. } => {
            &&& left < store.len()
            &&& right < store.len()
            &&& exists|d1: Seq<Lit>, d2: Seq<Lit>, lo: int, hi: int| #[trigger]
                both_renamed(
                    lits(store[left as int].literals, arena),
                    lits(store[right as int].literals, arena),
                    d1,
                    d2,
                    lo,
                    hi,
                ) && resolution_entry(left, right, d1, d2, arena, concl, info)
        },
        RuleView::Factoring { parent, .. } => {
            &&& parent < store.len()
            &&& factoring_entry(
                parent,
                lits(store[parent as int].literals, arena),
                arena,
                concl,
                info,
            )
        },
        _ => false,
    }
}

/// Whether the weight of a clause is the sum of the weights of its literals.
pub open spec fn weighed(c: ClauseView, arena: &TermArena) -> bool {
    c.weight == weights(lits(c.literals, arena), c.literals.len())
}

/// Whether every clause has valid terms, its weight, and a correct derivation
/// from earlier clauses.
pub open spec fn all_justified(store: Seq<ClauseView>, arena: &TermArena) -> bool {
    forall|k: int|
        0 <= k < store.len() ==> lits_valid((#[trigger] store[k]).literals, arena) && justified(
            store.take(k),
            arena,
            store[k].literals,
            store[k].inference,
        ) && weighed(store[k], arena)
}

proof fn lemma_justified_grows(
    store: Seq<ClauseView>,
    arena: &TermArena,
    store1: Seq<ClauseView>,
    arena1: &TermArena,
    concl: Seq<LitIds>,
    info: InferenceView,
)
    requires
        arena.wf(),
        arena1.extends(arena),
        store.is_prefix_of(store1),
        forall|k: int| 0 <= k < store.len() ==> lits_valid((#[trigger] store[k]).literals, arena),
        justified(store, arena, concl, info),
    ensures
        justified(store1, arena1, concl, info),
{
    assert forall|k: int| 0 <= k < store.len() implies store1[k] == store[k] && lits(
        (#[trigger] store[k]).literals,
        arena1,
    ) == lits(store[k].literals, arena) by {
        lemma_lits_extends(store[k].literals, arena, arena1);
    }
    match info.rule {
        RuleView::Resolution { left, right, .. } => {
            let (d1, d2, lo, hi) = choose|d1: Seq<Lit>, d2: Seq<Lit>, lo: int, hi: int| #[trigger]
                both_renamed(
                    lits(store[left as int].literals, arena),
                    lits(store[right as int].literals, arena),
                    d1,
                    d2,
                    lo,
                    hi,
                ) && resolution_entry(left, right, d1, d2, arena, concl, info);
            lemma_resolution_entry_extends(left, right, d1, d2, arena, arena1, concl, info);
            assert(both_renamed(
                lits(store1[left as int].literals, arena1),
                lits(store1[right as int].literals, arena1),
                d1,
                d2,
                lo,
                hi,
            ));
        },
        RuleView::Factoring { parent, .. } => {
            lemma_factoring_entry_extends(
                parent,
                lits(store[parent as int].literals, arena),
                arena,
                arena1,
                concl,
                info,
            );
        },
        _ => {},
    }
}

/// Derivations stay correct when the arena grows.
proof fn lemma_all_justified_extends(
    store: Seq<ClauseView>,
    arena: &TermArena,
    arena1: &TermArena,
)
    requires
        arena.wf(),
        arena1.extends(arena),
        all_justified(store, arena),
    ensures
        all_justified(store, arena1),
        contents(store, arena1) == contents(store, arena),
{
    assert forall|k: int| 0 <= k < store.len() implies lits_valid(
        (#[trigger] store[k]).literals,
        arena1,
    ) && justified(store.take(k), arena1, store[k].literals, store[k].inference) && weighed(
        store[k],
        arena1,
    ) && lits(store[k].literals, arena1) == lits(store[k].literals, arena) by {
        lemma_lits_extends(store[k].literals, arena, arena1);
        assert forall|i: int| 0 <= i < store.take(k).len() implies lits_valid(
            (#[trigger] store.take(k)[i]).literals,
            arena,
        ) by {
            assert(store.take(k)[i] == store[i]);
        }
        lemma_justified_grows(
            store.take(k),
            arena,
            store.take(k),
            arena1,
            store[k].literals,
            store[k].inference,
        );
    }
    assert(contents(store, arena1) =~= contents(store, arena));
}

impl Saturation {
    /// The terms of the search.
    pub closed spec fn spec_arena(&self) -> TermArena {
        self.arena
    }

    /// The clauses of the search.
    pub closed spec fn spec_store(&self) -> ClauseStore {
        self.clause_store
    }

    /// The variables still to be handed out.
    pub closed spec fn spec_var_gen(&self) -> VarGen {
        self.var_gen
    }

    /// The processed clauses, in order.
    pub closed spec fn spec_active(&self) -> Seq<ClauseId> {
        self.active@
    }

    /// The clauses waiting to be processed, first come first served.
    pub closed spec fn spec_passive(&self) -> Seq<ClauseId> {
        self.passive@
    }

    /// All clauses.
    pub open spec fn clauses(&self) -> Seq<ClauseView> {
        self.spec_store()@
    }

    /// The literals of all clauses.
    pub open spec fn contents(&self) -> Seq<Seq<Lit>> {
        contents(self.clauses(), &self.spec_arena())
    }

    /// The invariant of a search: every clause has its weight and a correct
    /// derivation.
    pub open spec fn wf(&self) -> bool {
        &&& self.spec_arena().wf()
        &&& self.spec_store().wf()
        &&& all_justified(self.clauses(), &self.spec_arena())
        &&& forall|i: int|
            0 <= i < self.spec_active().len() ==> (#[trigger] self.spec_active()[i])
                < self.clauses().len()
        &&& forall|i: int|
            0 <= i < self.spec_passive().len() ==> (#[trigger] self.spec_passive()[i])
                < self.clauses().len()
    }

    /// Whether the search stands between two steps: clauses are processed in
    /// the order of their ids, every clause is either processed or waiting,
    /// and the derived clauses stand in the order of their inferences.
    pub open spec fn on_track(&self) -> bool {
        let n = self.clauses().len();
        let g = self.spec_active().len();
        let ks = keys(self.clauses());
        &&& g <= n
        &&& self.spec_active() == id_range(0, g as int)
        &&& self.spec_passive() == id_range(g as int, n as int)
        &&& ordered(ks)
        &&& forall|k: int|
            0 <= k < n && (#[trigger] ks[k]) is Some ==> ks[k]->Some_0.given < g
        &&& forall|q: int| 0 <= q < g ==> #[trigger] processed(self.contents(), ks, q)
    }

    /// What the search has used.
    pub open spec fn stock(&self) -> Stock {
        stock(&self.spec_arena(), &self.spec_var_gen())
    }

    /// Whether no clause can be added.
    pub open spec fn full(&self) -> bool {
        self.clauses().len() == u32::MAX
    }

    /// Whether the searches differ in their arenas only.
    pub open spec fn same_but_arena(&self, other: &Saturation) -> bool {
        &&& self.spec_store() == other.spec_store()
        &&& self.spec_var_gen() == other.spec_var_gen()
        &&& self.spec_active() == other.spec_active()
        &&& self.spec_passive() == other.spec_passive()
    }

    /// An empty search.
    pub fn new() -> (r: Self)
        ensures
            r.wf(),
            r.on_track(),
            r.clauses().len() == 0,
            r.spec_arena().data().len() == 0,
            r.spec_arena().pool().len() == 0,
            r.spec_var_gen().next() == 0,
            r.spec_active().len() == 0,
            r.spec_passive().len() == 0,
    {
        let r = Saturation {
            arena: TermArena::new(),
            clause_store: ClauseStore::new(),
            var_gen: VarGen::new(),
            active: Vec::new(),
            passive: VecDeque::new(),
        };
        assert(r.spec_active() =~= id_range(0, 0));
        assert(r.spec_passive() =~= id_range(0, 0));
        r
    }

    /// The arena, to build the terms of input clauses in.
    pub fn arena_mut(&mut self) -> (r: &mut TermArena)
        ensures
            *r == old(self).spec_arena(),
            final(self).spec_arena() == *final(r),
            final(self).same_but_arena(old(self)),
    {
        &mut self.arena
    }

    /// Building terms leaves a search as it was.
    pub proof fn growing_the_arena_keeps_the_search(&self, before: &Saturation)
        requires
            before.wf(),
            self.same_but_arena(before),
            self.spec_arena().wf(),
            self.spec_arena().extends(&before.spec_arena()),
        ensures
            self.wf(),
            self.contents() == before.contents(),
            before.on_track() ==> self.on_track(),
    {
        lemma_all_justified_extends(
            before.clauses(),
            &before.spec_arena(),
            &self.spec_arena(),
        );
        if before.on_track() {
            let ks = keys(self.clauses());
            assert forall|q: int| 0 <= q < self.spec_active().len() implies #[trigger] processed(
                self.contents(),
                ks,
                q,
            ) by {
                assert(processed(before.contents(), ks, q));
            }
        }
    }

    /// The arena.
    pub fn arena(&self) -> (r: &TermArena)
        ensures
            *r == self.spec_arena(),
    {
        &self.arena
    }

    /// The clause store.
    pub fn clause_store(&self) -> (r: &ClauseStore)
        ensures
            *r == self.spec_store(),
    {
        &self.clause_store
    }

    /// Number of processed clauses.
    pub fn active_len(&self) -> (r: usize)
        ensures
            r == self.spec_active().len(),
    {
        self.active.len()
    }

    /// Number of clauses waiting to be processed.
    pub fn passive_len(&self) -> (r: usize)
        ensures
            r == self.spec_passive().len(),
    {
        self.passive.len()
    }

    /// Adds a clause of the problem; its terms must be in this search's arena.
    pub fn add_input_clause(&mut self, literals: Vec<Literal>) -> (r: ClauseId)
        requires
            old(self).wf(),
            old(self).clauses().len() < u32::MAX,
            lits_valid(views(literals@), &old(self).spec_arena()),
            weights(lits(views(literals@), &old(self).spec_arena()), literals@.len()) <= u32::MAX,
        ensures
            final(self).wf(),
            r == old(self).clauses().len(),
            final(self).clauses() == old(self).clauses().push(
                ClauseView {
                    id: r,
                    literals: views(literals@),
                    age: r,
                    weight: weights(
                        lits(views(literals@), &old(self).spec_arena()),
                        literals@.len(),
                    ) as u32,
                    inference: InferenceView { rule: RuleView::Input, parents: Seq::empty() },
                },
            ),
            final(self).spec_arena() == old(self).spec_arena(),
            final(self).spec_var_gen() == old(self).spec_var_gen(),
            final(self).spec_active() == old(self).spec_active(),
            final(self).spec_passive() == old(self).spec_passive().push(r),
            old(self).on_track() ==> final(self).on_track(),
    {
        let id: ClauseId = self.clause_store.insert(literals, InferenceInfo::input(), &self.arena);
        self.passive.push_back(id);
        proof {
            lemma_push_justified(
                old(self).clauses(),
                self.clauses(),
                &self.arena,
            );
            assert forall|i: int| 0 <= i < self.spec_active().len() implies (
            #[trigger] self.spec_active()[i]) < self.clauses().len() by {
                assert(old(self).spec_active()[i] < old(self).clauses().len());
            }
            assert forall|i: int| 0 <= i < self.spec_passive().len() implies (
            #[trigger] self.spec_passive()[i]) < self.clauses().len() by {
                if i < old(self).spec_passive().len() {
                    assert(old(self).spec_passive()[i] < old(self).clauses().len());
                }
            }
            if old(self).on_track() {
                let n = old(self).clauses().len() as int;
                let g = self.active@.len() as int;
                assert(self.passive@ =~= id_range(g, n + 1));
                let ks0 = keys(old(self).clauses());
                let ks = keys(self.clauses());
                assert(ks =~= ks0.push(None));
                let cs0 = old(self).contents();
                let cs = self.contents();
                assert(cs =~= cs0.push(cs[n]));
                assert forall|q: int| 0 <= q < g implies #[trigger] processed(cs, ks, q) by {
                    assert(processed(cs0, ks0, q));
                    lemma_processed_grows(cs0, ks0, cs, ks, q);
                }
                assert(ordered(ks)) by {
                    assert forall|k: int, l: int|
                        0 <= k < l < ks.len() && (#[trigger] ks[k]) is Some && (
                        #[trigger] ks[l]) is Some implies key_before(
                        ks[k]->Some_0,
                        ks[l]->Some_0,
                    ) by {
                        assert(ks0[k] == ks[k] && ks0[l] == ks[l]);
                    }
                }
                assert forall|k: int| 0 <= k < n + 1 && (#[trigger] ks[k]) is Some implies
                    ks[k]->Some_0.given < g by {
                    assert(ks0[k] == ks[k]);
                }
            }
        }
        id
    }
}

/// One more justified clause.
proof fn lemma_push_justified(
    before: Seq<ClauseView>,
    after: Seq<ClauseView>,
    arena: &TermArena,
)
    requires
        arena.wf(),
        all_justified(before, arena),
        after.len() == before.len() + 1,
        before.is_prefix_of(after),
        lits_valid(after.last().literals, arena),
        justified(before, arena, after.last().literals, after.last().inference),
        weighed(after.last(), arena),
    ensures
        all_justified(after, arena),
{
    assert forall|k: int| 0 <= k < after.len() implies lits_valid(
        (#[trigger] after[k]).literals,
        arena,
    ) && justified(after.take(k), arena, after[k].literals, after[k].inference) && weighed(
        after[k],
        arena,
    ) by {
        if k < before.len() {
            assert(before[k] == after[k]);
            assert(before.take(k) =~= after.take(k));
        } else {
            assert(after.take(k) =~= before);
        }
    }
}

/// A processed clause stays processed when clauses are added.
proof fn lemma_processed_grows(
    cs0: Seq<Seq<Lit>>,
    ks0: Seq<Option<Key>>,
    cs: Seq<Seq<Lit>>,
    ks: Seq<Option<Key>>,
    q: int,
)
    requires
        cs0.is_prefix_of(cs),
        ks0.is_prefix_of(ks),
        0 <= q < cs0.len(),
        processed(cs0, ks0, q),
    ensures
        processed(cs, ks, q),
{
    assert(cs[q] == cs0[q]);
    assert(factors_done(cs, ks, q)) by {
        lemma_factors_done_grows(cs0, ks0, cs, ks, q);
    }
    assert forall|p: int| 0 <= p < q implies #[trigger] resolvents_done(cs, ks, q, p) by {
        assert(resolvents_done(cs0, ks0, q, p));
        lemma_resolvents_done_grows(cs0, ks0, cs, ks, q, p);
    }
}

proof fn lemma_key_kept(ks0: Seq<Option<Key>>, ks: Seq<Option<Key>>, k: Option<Key>)
    requires
        ks0.is_prefix_of(ks),
        ks0.contains(k),
    ensures
        ks.contains(k),
{
    let i = choose|i: int| 0 <= i < ks0.len() && ks0[i] == k;
    assert(ks[i] == k);
}

proof fn lemma_factors_done_grows(
    cs0: Seq<Seq<Lit>>,
    ks0: Seq<Option<Key>>,
    cs: Seq<Seq<Lit>>,
    ks: Seq<Option<Key>>,
    q: int,
)
    requires
        cs0.is_prefix_of(cs),
        ks0.is_prefix_of(ks),
        0 <= q < cs0.len(),
        factors_done(cs0, ks0, q),
    ensures
        factors_done(cs, ks, q),
{
    assert(cs[q] == cs0[q]);
    assert forall|i: int, j: int|
        0 <= i < j < cs[q].len() && mergeable(#[trigger] cs[q][i], #[trigger] cs[q][j]) implies
        ks.contains(Some(Key { given: q, partner: -1, a: i, b: j })) by {
        assert(mergeable(cs0[q][i], cs0[q][j]));
        lemma_key_kept(ks0, ks, Some(Key { given: q, partner: -1, a: i, b: j }));
    }
}

proof fn lemma_resolvents_done_grows(
    cs0: Seq<Seq<Lit>>,
    ks0: Seq<Option<Key>>,
    cs: Seq<Seq<Lit>>,
    ks: Seq<Option<Key>>,
    q: int,
    p: int,
)
    requires
        cs0.is_prefix_of(cs),
        ks0.is_prefix_of(ks),
        0 <= q < cs0.len(),
        0 <= p < cs0.len(),
        resolvents_done(cs0, ks0, q, p),
    ensures
        resolvents_done(cs, ks, q, p),
{
    assert(cs[q] == cs0[q]);
    assert(cs[p] == cs0[p]);
    assert forall|i: int, j: int|
        0 <= i < cs[q].len() && 0 <= j < cs[p].len() && clash(
            #[trigger] cs[q][i],
            #[trigger] cs[p][j],
        ) implies ks.contains(Some(Key { given: q, partner: p, a: i, b: j })) by {
        assert(clash(cs0[q][i], cs0[p][j]));
        lemma_key_kept(ks0, ks, Some(Key { given: q, partner: p, a: i, b: j }));
    }
}

/// How storing the results of an inference ended.
enum Emitted {
    /// All were stored and none is empty.
    All,
    /// The clause with this id, the last one stored, is empty.
    Empty(ClauseId),
    /// A result could not be stored.
    Full,
}

impl Emitted {
    /// The id of the empty clause that was stored, or -1.
    spec fn empty_id(self) -> int {
        match self {
            Emitted::Empty(id) => id as int,
            _ => -1,
        }
    }
}

impl Saturation {
    /// The last clause stored is empty, and the new ones before it wait.
    spec fn ends_empty(&self, before: &Saturation, id: ClauseId) -> bool {
        &&& id == self.clauses().len() - 1
        &&& id >= before.clauses().len()
        &&& self.clauses()[id as int].literals.len() == 0
        &&& self.spec_passive() == before.spec_passive() + id_range(
            before.clauses().len() as int,
            id as int,
        )
    }

    /// All new clauses wait.
    spec fn ends_full(&self, before: &Saturation) -> bool {
        &&& self.spec_passive() == before.spec_passive() + id_range(
            before.clauses().len() as int,
            self.clauses().len() as int,
        )
    }
}

/// `after` is `before` followed by the first `n` results.
spec fn appended(
    before: Seq<ClauseView>,
    after: Seq<ClauseView>,
    results: Seq<InferenceResult>,
    n: int,
) -> bool {
    &&& after.len() == before.len() + n
    &&& before.is_prefix_of(after)
    &&& forall|k: int|
        0 <= k < n ==> {
            let c = #[trigger] after[before.len() + k];
            c.literals == views(results[k].0@) && c.inference == results[k].1@
        }
}

impl Saturation {
    /// Stores the result of one inference; gives its id and whether it is the
    /// empty clause, or `None` where ids or weights do not suffice.
    fn emit(&mut self, literals: Vec<Literal>, info: InferenceInfo) -> (r: Option<(ClauseId, bool)>)
        requires
            old(self).wf(),
            lits_valid(views(literals@), &old(self).spec_arena()),
            justified(
                old(self).clauses(),
                &old(self).spec_arena(),
                views(literals@),
                info@,
            ),
        ensures
            final(self).wf(),
            final(self).spec_arena() == old(self).spec_arena(),
            final(self).spec_var_gen() == old(self).spec_var_gen(),
            final(self).spec_active() == old(self).spec_active(),
            final(self).spec_passive() == old(self).spec_passive(),
            match r {
                Some((id, is_empty)) => {
                    &&& id == old(self).clauses().len()
                    &&& is_empty == (literals@.len() == 0)
                    &&& final(self).clauses().len() == id + 1
                    &&& old(self).clauses().is_prefix_of(final(self).clauses())
                    &&& final(self).clauses()[id as int].literals == views(literals@)
                    &&& final(self).clauses()[id as int].inference == info@
                },
                None => {
                    &&& *final(self) == *old(self)
                    &&& old(self).full() || too_heavy(
                        lits(views(literals@), &old(self).spec_arena()),
                    )
                },
            },
    {
        if self.clause_store.len() >= u32::MAX as usize {
            proof {
                self.clause_store.ids_are_positions();
            }
            return None;
        }
        if try_clause_weight(&literals, &self.arena).is_none() {
            return None;
        }
        let is_empty: bool = literals.len() == 0;
        let id: ClauseId = self.clause_store.insert(literals, info, &self.arena);
        proof {
            assert(old(self).clauses().is_prefix_of(self.clauses()));
            assert(self.clauses().last() == self.clauses()[id as int]);
            lemma_push_justified(old(self).clauses(), self.clauses(), &self.arena);
            assert forall|i: int| 0 <= i < self.spec_active().len() implies (
            #[trigger] self.spec_active()[i]) < self.clauses().len() by {
                assert(old(self).spec_active()[i] < old(self).clauses().len());
            }
            assert forall|i: int| 0 <= i < self.spec_passive().len() implies (
            #[trigger] self.spec_passive()[i]) < self.clauses().len() by {
                assert(old(self).spec_passive()[i] < old(self).clauses().len());
            }
        }
        Some((id, is_empty))
    }

    /// Stores results one after the other and queues them, up to the first
    /// that is empty.
    fn emit_all(&mut self, results: Vec<InferenceResult>) -> (r: Emitted)
        requires
            old(self).wf(),
            forall|k: int|
                0 <= k < results@.len() ==> lits_valid(
                    views((#[trigger] results@[k]).0@),
                    &old(self).spec_arena(),
                ) && justified(
                    old(self).clauses(),
                    &old(self).spec_arena(),
                    views(results@[k].0@),
                    results@[k].1@,
                ) && !(results@[k].1@.rule is Input),
        ensures
            final(self).wf(),
            final(self).spec_arena() == old(self).spec_arena(),
            final(self).spec_var_gen() == old(self).spec_var_gen(),
            final(self).spec_active() == old(self).spec_active(),
            old(self).clauses().is_prefix_of(final(self).clauses()),
            derived_since(final(self).clauses(), old(self).clauses().len() as int),
            exists|n: int|
                0 <= n <= results@.len() && #[trigger] appended(
                    old(self).clauses(),
                    final(self).clauses(),
                    results@,
                    n,
                ),
            not_empty_since(
                final(self).clauses(),
                old(self).clauses().len() as int,
                r.empty_id(),
            ),
            match r {
                Emitted::All => {
                    &&& appended(
                        old(self).clauses(),
                        final(self).clauses(),
                        results@,
                        results@.len() as int,
                    )
                    &&& final(self).spec_passive() == old(self).spec_passive() + id_range(
                        old(self).clauses().len() as int,
                        final(self).clauses().len() as int,
                    )
                },
                Emitted::Empty(id) => final(self).ends_empty(old(self), id),
                Emitted::Full => {
                    &&& final(self).ends_full(old(self))
                    &&& exists|n: int|
                        0 <= n < results@.len() && #[trigger] appended(
                            old(self).clauses(),
                            final(self).clauses(),
                            results@,
                            n,
                        ) && (final(self).full() || too_heavy(
                            lits(views(results@[n].0@), &old(self).spec_arena()),
                        ))
                },
            },
    {
        let ghost rs = results@;
        let ghost before = self.clauses();
        let ghost arena = self.arena;
        assert(before.is_prefix_of(before));
        assert(self.passive@ =~= self.passive@ + id_range(
            before.len() as int,
            before.len() as int,
        ));
        for res in it: results
            invariant
                it.seq() == rs,
                self.wf(),
                self.arena == arena,
                self.var_gen == old(self).var_gen,
                self.active@ == old(self).active@,
                before == old(self).clauses(),
                arena == old(self).spec_arena(),
                all_justified(before, &arena),
                arena.wf(),
                forall|k: int|
                    0 <= k < rs.len() ==> lits_valid(views((#[trigger] rs[k]).0@), &arena)
                        && justified(before, &arena, views(rs[k].0@), rs[k].1@) && !(
                    rs[k].1@.rule is Input),
                appended(before, self.clauses(), rs, it.index()),
                not_empty_since(self.clauses(), before.len() as int, -1),
                self.passive@ == old(self).passive@ + id_range(
                    before.len() as int,
                    self.clauses().len() as int,
                ),
        {
            let ghost now = self.clauses();
            let ghost i = it.index();
            let ghost queue = self.passive@;
            proof {
                assert(res == rs[i]);
                assert forall|k: int| 0 <= k < before.len() implies lits_valid(
                    (#[trigger] before[k]).literals,
                    &arena,
                ) by {}
                assert(arena.extends(&arena));
                lemma_justified_grows(
                    before,
                    &arena,
                    now,
                    &arena,
                    views(rs[i].0@),
                    rs[i].1@,
                );
            }
            let (literals, info) = res;
            match self.emit(literals, info) {
                None => {
                    proof {
                        lemma_derived_since(before, self.clauses(), rs, i);
                    }
                    return Emitted::Full;
                },
                Some((id, is_empty)) => {
                    proof {
                        lemma_appended_push(before, now, self.clauses(), rs, i);
                        assert forall|k: int|
                            before.len() <= k < self.clauses().len() && k != id implies (
                        #[trigger] self.clauses()[k]).literals.len() > 0 by {
                            assert(now[k] == self.clauses()[k]);
                        }
                    }
                    if is_empty {
                        proof {
                            lemma_derived_since(before, self.clauses(), rs, i + 1);
                        }
                        return Emitted::Empty(id);
                    }
                    let ghost stored = *self;
                    self.passive.push_back(id);
                    proof {
                        assert(id_range(before.len() as int, id + 1) =~= id_range(
                            before.len() as int,
                            id as int,
                        ).push(id));
                        assert(self.passive@ =~= old(self).passive@ + id_range(
                            before.len() as int,
                            self.clauses().len() as int,
                        ));
                        assert forall|i: int| 0 <= i < self.spec_passive().len() implies (
                        #[trigger] self.spec_passive()[i]) < self.clauses().len() by {
                            if i < queue.len() {
                                assert(stored.spec_passive()[i] < stored.clauses().len());
                            }
                        }
                        assert forall|i: int| 0 <= i < self.spec_active().len() implies (
                        #[trigger] self.spec_active()[i]) < self.clauses().len() by {
                            assert(stored.spec_active()[i] < stored.clauses().len());
                        }
                        assert(self.wf());
                    }
                },
            }
        }
        proof {
            lemma_derived_since(before, self.clauses(), rs, rs.len() as int);
        }
        Emitted::All
    }
}

/// Whether every clause from position `n` on was derived while the clause `g`
/// was processed.
pub open spec fn derived_from(store: Seq<ClauseView>, n: int, g: int) -> bool {
    forall|k: int|
        n <= k < store.len() ==> (#[trigger] keys(store)[k]) is Some
            && keys(store)[k]->Some_0.given == g
}

/// Whether no clause from position `n` on is empty, except perhaps the one at
/// `last`.
pub open spec fn not_empty_since(store: Seq<ClauseView>, n: int, last: int) -> bool {
    forall|k: int|
        n <= k < store.len() && k != last ==> (#[trigger] store[k]).literals.len() > 0
}

/// Whether all clauses that were derived from position `n` on and go beyond
/// `max` clauses, or fill them up, come from one clause.
pub open spec fn within_limit(store: Seq<ClauseView>, n: int, max: int) -> bool {
    forall|k: int, l: int|
        n <= k < l < store.len() && max <= k + 1 ==> (#[trigger] keys(store)[k])->Some_0.given == (
        #[trigger] keys(store)[l])->Some_0.given
}

/// Whether the store held fewer than `max` clauses when the processing of the
/// clause `g`, the last one, began.
pub open spec fn began_below(store: Seq<ClauseView>, g: int, max: int) -> bool {
    exists|n: int| 0 <= n <= store.len() && n < max && #[trigger] derived_from(store, n, g)
}

/// Whether every clause from position `n` on was derived.
pub open spec fn derived_since(store: Seq<ClauseView>, n: int) -> bool {
    forall|k: int| n <= k < store.len() ==> !((#[trigger] store[k]).inference.rule is Input)
}

proof fn lemma_derived_since(
    before: Seq<ClauseView>,
    after: Seq<ClauseView>,
    results: Seq<InferenceResult>,
    n: int,
)
    requires
        appended(before, after, results, n),
        0 <= n <= results.len(),
        forall|k: int| 0 <= k < results.len() ==> !((#[trigger] results[k]).1@.rule is Input),
    ensures
        derived_since(after, before.len() as int),
{
    assert forall|k: int| before.len() <= k < after.len() implies !(
    (#[trigger] after[k]).inference.rule is Input) by {
        assert(after[before.len() + (k - before.len())].inference
            == results[k - before.len()].1@);
    }
}

proof fn lemma_appended_push(
    before: Seq<ClauseView>,
    now: Seq<ClauseView>,
    after: Seq<ClauseView>,
    results: Seq<InferenceResult>,
    n: int,
)
    requires
        appended(before, now, results, n),
        0 <= n < results.len(),
        after.len() == now.len() + 1,
        now.is_prefix_of(after),
        after.last().literals == views(results[n].0@),
        after.last().inference == results[n].1@,
    ensures
        appended(before, after, results, n + 1),
{
    assert(before.is_prefix_of(after)) by {
        assert forall|k: int| 0 <= k < before.len() implies before[k] == after[k] by {
            assert(before[k] == now[k] && now[k] == after[k]);
        }
        assert(before =~= after.subrange(0, before.len() as int));
    }
    assert forall|k: int| 0 <= k < n + 1 implies {
        let c = #[trigger] after[before.len() + k];
        c.literals == views(results[k].0@) && c.inference == results[k].1@
    } by {
        if k < n {
            assert(now[before.len() + k] == after[before.len() + k]);
        }
    }
}

/// Where a search stands while it processes the clause `g`: it has derived the
/// factors of `g` where `p` is not negative, and the resolvents with the
/// clauses below `p`.
spec fn progress(
    cs: Seq<Seq<Lit>>,
    ks: Seq<Option<Key>>,
    active: Seq<ClauseId>,
    passive: Seq<ClauseId>,
    g: int,
    p: int,
) -> bool {
    &&& ks.len() == cs.len()
    &&& p <= g
    &&& 0 <= g < cs.len()
    &&& active == id_range(0, g)
    &&& passive == id_range(g + 1, cs.len() as int)
    &&& ordered(ks)
    &&& forall|k: int|
        0 <= k < ks.len() && (#[trigger] ks[k]) is Some ==> {
            let key = ks[k]->Some_0;
            key.given < g || (key.given == g && key.partner < p)
        }
    &&& forall|q: int| 0 <= q < g ==> #[trigger] processed(cs, ks, q)
    &&& cs[g].len() > 0
    &&& p >= 0 ==> factors_done(cs, ks, g)
    &&& forall|r: int| 0 <= r < p ==> #[trigger] resolvents_done(cs, ks, g, r)
}

/// The results of one inference step are stored: their inferences come after
/// all earlier ones, and everything done stays done.
proof fn lemma_progress_grows(
    cs0: Seq<Seq<Lit>>,
    cs: Seq<Seq<Lit>>,
    store0: Seq<ClauseView>,
    store: Seq<ClauseView>,
    results: Seq<InferenceResult>,
    active: Seq<ClauseId>,
    passive: Seq<ClauseId>,
    n: int,
    g: int,
    p: int,
    partner: int,
)
    requires
        progress(cs0, keys(store0), active, passive, g, p),
        cs0.is_prefix_of(cs),
        cs.len() == store.len(),
        cs0.len() == store0.len(),
        0 <= n <= results.len(),
        appended(store0, store, results, n),
        in_order(results),
        p <= partner < g,
        forall|k: int|
            0 <= k < results.len() ==> {
                let rule = (#[trigger] results[k]).1@.rule;
                key_of(rule) == Some(
                    Key { given: g, partner, a: pair_of(rule).0, b: pair_of(rule).1 },
                )
            },
    ensures
        ({
            let ks = keys(store);
            &&& keys(store0).is_prefix_of(ks)
            &&& ordered(ks)
            &&& forall|k: int|
                0 <= k < ks.len() && (#[trigger] ks[k]) is Some ==> {
                    let key = ks[k]->Some_0;
                    key.given < g || (key.given == g && key.partner <= partner)
                }
            &&& forall|q: int| 0 <= q < g ==> #[trigger] processed(cs, ks, q)
            &&& cs[g].len() > 0
            &&& p >= 0 ==> factors_done(cs, ks, g)
            &&& forall|r: int| 0 <= r < p ==> #[trigger] resolvents_done(cs, ks, g, r)
            &&& passive + id_range(store0.len() as int, store.len() as int) == id_range(
                g + 1,
                store.len() as int,
            )
        }),
{
    let ks0 = keys(store0);
    let ks = keys(store);
    let n0 = store0.len() as int;
    assert forall|k: int| 0 <= k < n0 implies ks[k] == ks0[k] by {
        assert(store[k] == store0[k]);
    }
    assert(ks0 =~= ks.subrange(0, n0));
    assert forall|k: int| n0 <= k < ks.len() implies ({
        let rule = results[k - n0].1@.rule;
        #[trigger] ks[k] == Some(Key { given: g, partner, a: pair_of(rule).0, b: pair_of(rule).1 })
    }) by {
        assert(store[n0 + (k - n0)].inference == results[k - n0].1@);
    }
    assert forall|k: int, l: int|
        0 <= k < l < ks.len() && (#[trigger] ks[k]) is Some && (#[trigger] ks[l]) is Some implies
        key_before(ks[k]->Some_0, ks[l]->Some_0) by {
        if l < n0 {
            assert(ks0[k] == ks[k] && ks0[l] == ks[l]);
        } else if k < n0 {
            assert(ks0[k] == ks[k]);
        } else {
            assert(pair_before(
                pair_of(results[k - n0].1@.rule),
                pair_of(results[l - n0].1@.rule),
            ));
        }
    }
    assert forall|q: int| 0 <= q < g implies #[trigger] processed(cs, ks, q) by {
        assert(processed(cs0, ks0, q));
        lemma_processed_grows(cs0, ks0, cs, ks, q);
    }
    assert(cs[g] == cs0[g]);
    if p >= 0 {
        lemma_factors_done_grows(cs0, ks0, cs, ks, g);
    }
    assert forall|r: int| 0 <= r < p implies #[trigger] resolvents_done(cs, ks, g, r) by {
        assert(resolvents_done(cs0, ks0, g, r));
        lemma_resolvents_done_grows(cs0, ks0, cs, ks, g, r);
    }
    assert(passive + id_range(n0, store.len() as int) =~= id_range(g + 1, store.len() as int));
}

proof fn lemma_derived_from(
    store0: Seq<ClauseView>,
    store: Seq<ClauseView>,
    results: Seq<InferenceResult>,
    n: int,
    g: int,
)
    requires
        0 <= n <= results.len(),
        appended(store0, store, results, n),
        forall|k: int|
            0 <= k < results.len() ==> key_of((#[trigger] results[k]).1@.rule) is Some && key_of(
                results[k].1@.rule,
            )->Some_0.given == g,
    ensures
        derived_from(store, store0.len() as int, g),
{
    assert forall|k: int| store0.len() <= k < store.len() implies (
    #[trigger] keys(store)[k]) is Some && keys(store)[k]->Some_0.given == g by {
        let i = k - store0.len();
        assert(store[store0.len() + i].inference == results[i].1@);
        assert(key_of(results[i].1@.rule) is Some);
    }
}

proof fn lemma_derived_from_trans(
    store0: Seq<ClauseView>,
    store1: Seq<ClauseView>,
    store2: Seq<ClauseView>,
    g: int,
    last: int,
)
    requires
        store0.len() <= store1.len(),
        store1.is_prefix_of(store2),
        derived_from(store1, store0.len() as int, g),
        derived_from(store2, store1.len() as int, g),
        not_empty_since(store1, store0.len() as int, -1),
        not_empty_since(store2, store1.len() as int, last),
    ensures
        derived_from(store2, store0.len() as int, g),
        not_empty_since(store2, store0.len() as int, last),
{
    assert forall|k: int| store0.len() <= k < store2.len() implies (
    #[trigger] keys(store2)[k]) is Some && keys(store2)[k]->Some_0.given == g by {
        if k < store1.len() {
            assert(store1[k] == store2[k]);
            assert(keys(store1)[k] is Some);
        }
    }
    assert forall|k: int| store0.len() <= k < store2.len() && k != last implies (
    #[trigger] store2[k]).literals.len() > 0 by {
        if k < store1.len() {
            assert(store1[k] == store2[k]);
        }
    }
}

/// What was found is in the store.
proof fn lemma_found_key(
    store0: Seq<ClauseView>,
    store: Seq<ClauseView>,
    results: Seq<InferenceResult>,
    g: int,
    partner: int,
    x: int,
    y: int,
)
    requires
        appended(store0, store, results, results.len() as int),
        forall|k: int|
            0 <= k < results.len() ==> {
                let rule = (#[trigger] results[k]).1@.rule;
                key_of(rule) == Some(
                    Key { given: g, partner, a: pair_of(rule).0, b: pair_of(rule).1 },
                )
            },
        found(results, (x, y)),
    ensures
        keys(store).contains(Some(Key { given: g, partner, a: x, b: y })),
{
    let k = choose|k: int|
        0 <= k < results.len() && pair_of((#[trigger] results[k]).1@.rule) == (x, y);
    assert(store[store0.len() + k].inference == results[k].1@);
    assert(keys(store)[store0.len() + k] == Some(Key { given: g, partner, a: x, b: y }));
}

/// What was found before a result up to which all were stored is in the store.
proof fn lemma_found_key_before(
    store0: Seq<ClauseView>,
    store: Seq<ClauseView>,
    results: Seq<InferenceResult>,
    n: int,
    m: int,
    g: int,
    partner: int,
    x: int,
    y: int,
)
    requires
        0 <= m < results.len(),
        m <= n <= results.len(),
        appended(store0, store, results, n),
        in_order(results),
        forall|k: int|
            0 <= k < results.len() ==> {
                let rule = (#[trigger] results[k]).1@.rule;
                key_of(rule) == Some(
                    Key { given: g, partner, a: pair_of(rule).0, b: pair_of(rule).1 },
                )
            },
        found(results, (x, y)),
        pair_before((x, y), pair_of(results[m].1@.rule)),
    ensures
        keys(store).contains(Some(Key { given: g, partner, a: x, b: y })),
{
    let k = choose|k: int|
        0 <= k < results.len() && pair_of((#[trigger] results[k]).1@.rule) == (x, y);
    if k > m {
        assert(pair_before(pair_of(results[m].1@.rule), pair_of(results[k].1@.rule)));
    }
    assert(store[store0.len() + k].inference == results[k].1@);
    assert(keys(store)[store0.len() + k] == Some(Key { given: g, partner, a: x, b: y }));
}

/// Whether the clause at position `a` of the processed ones is not empty and
/// was processed: every factor of it and every resolvent with a clause before
/// it was derived.
pub open spec fn worked(
    cs: Seq<Seq<Lit>>,
    ks: Seq<Option<Key>>,
    active: Seq<ClauseId>,
    a: int,
) -> bool {
    let q = active[a] as int;
    &&& cs[q].len() > 0
    &&& factors_done(cs, ks, q)
    &&& forall|b: int| 0 <= b < a ==> resolvents_done(cs, ks, q, #[trigger] active[b] as int)
}

proof fn lemma_worked_grows(
    cs0: Seq<Seq<Lit>>,
    ks0: Seq<Option<Key>>,
    cs: Seq<Seq<Lit>>,
    ks: Seq<Option<Key>>,
    active0: Seq<ClauseId>,
    active: Seq<ClauseId>,
    a: int,
)
    requires
        cs0.is_prefix_of(cs),
        ks0.is_prefix_of(ks),
        active0.is_prefix_of(active),
        0 <= a < active0.len(),
        forall|b: int| 0 <= b < active0.len() ==> (#[trigger] active0[b]) < cs0.len(),
        worked(cs0, ks0, active0, a),
    ensures
        worked(cs, ks, active, a),
{
    let q = active0[a] as int;
    assert(active[a] == active0[a]);
    assert(cs[q] == cs0[q]);
    lemma_factors_done_grows(cs0, ks0, cs, ks, q);
    assert forall|b: int| 0 <= b < a implies resolvents_done(
        cs,
        ks,
        q,
        #[trigger] active[b] as int,
    ) by {
        assert(active[b] == active0[b]);
        lemma_resolvents_done_grows(cs0, ks0, cs, ks, q, active0[b] as int);
    }
}

proof fn lemma_keys_prefix(before: Seq<ClauseView>, after: Seq<ClauseView>)
    requires
        before.is_prefix_of(after),
    ensures
        keys(before).is_prefix_of(keys(after)),
{
    let a = keys(before);
    let b = keys(after);
    assert forall|k: int| 0 <= k < a.len() implies a[k] == b[k] by {
        assert(before[k] == after[k]);
    }
    assert(a =~= b.subrange(0, a.len() as int));
}

impl Saturation {
    spec fn at(&self, g: int, p: int) -> bool {
        progress(self.contents(), keys(self.clauses()), self.active@, self.passive@, g, p)
    }

    /// What every part of a run keeps.
    spec fn ran(&self, before: &Saturation) -> bool {
        &&& self.wf()
        &&& self.spec_arena().extends(&before.spec_arena())
        &&& before.clauses().is_prefix_of(self.clauses())
        &&& derived_since(self.clauses(), before.clauses().len() as int)
        &&& self.spec_var_gen().next() >= before.spec_var_gen().next()
    }

    /// The stock after all clauses that were processed since `before`.
    pub open spec fn steps_from(&self, before: &Saturation) -> Stock {
        used_steps(
            before.stock(),
            self.contents(),
            self.spec_active(),
            before.spec_active().len(),
            self.spec_active().len(),
        )
    }

    /// The clauses that are new since `before` were derived while the clauses
    /// of `order` were processed: each is the conclusion of one inference, and
    /// they stand in the order of their inferences.
    pub open spec fn made_since(&self, before: &Saturation, order: Seq<ClauseId>) -> bool {
        exists|places: Seq<Place>| #[trigger]
            made_in_order(
                self.contents(),
                keys(self.clauses()),
                order,
                before.spec_active().len() as int,
                before.stock(),
                before.clauses().len() as int,
                places,
            )
    }

    /// Clauses were processed in the order in which they waited, and each of
    /// them in full. Nothing else was used.
    pub open spec fn stepped_from(&self, before: &Saturation) -> bool {
        &&& self.stock() == self.steps_from(before)
        &&& self.made_since(before, self.spec_active())
        &&& before.spec_active().is_prefix_of(self.spec_active())
        &&& self.spec_active() + self.spec_passive() == before.spec_active() + (
        before.spec_passive() + id_range(
            before.clauses().len() as int,
            self.clauses().len() as int,
        ))
        &&& forall|a: int|
            before.spec_active().len() <= a < self.spec_active().len() ==> #[trigger] worked(
                self.contents(),
                keys(self.clauses()),
                self.spec_active(),
                a,
            )
    }

    /// Clauses were processed in the order in which they waited, and each of
    /// them in full; then `given` was taken and not finished. The clauses
    /// below `m` that are new wait.
    pub open spec fn stopped_from(&self, before: &Saturation, given: ClauseId, m: int) -> bool {
        &&& self.made_since(before, self.spec_active().push(given))
        &&& before.spec_active().is_prefix_of(self.spec_active())
        &&& self.spec_active().push(given) + self.spec_passive() == before.spec_active() + (
        before.spec_passive() + id_range(before.clauses().len() as int, m))
        &&& forall|a: int|
            before.spec_active().len() <= a < self.spec_active().len() ==> #[trigger] worked(
                self.contents(),
                keys(self.clauses()),
                self.spec_active(),
                a,
            )
    }

    proof fn lemma_growth(&self, later: &Saturation)
        requires
            self.wf(),
            later.ran(self),
        ensures
            self.contents().is_prefix_of(later.contents()),
            keys(self.clauses()).is_prefix_of(keys(later.clauses())),
    {
        lemma_all_justified_extends(
            self.clauses(),
            &self.spec_arena(),
            &later.spec_arena(),
        );
        lemma_contents_prefix(self.clauses(), later.clauses(), &later.spec_arena());
        lemma_keys_prefix(self.clauses(), later.clauses());
    }

    proof fn lemma_queues(&self, other: &Saturation)
        requires
            other.wf(),
            self.spec_arena().wf(),
            self.spec_store().wf(),
            all_justified(self.clauses(), &self.spec_arena()),
            self.clauses().len() >= other.clauses().len(),
            self.active@ == other.active@,
            forall|i: int|
                0 <= i < self.passive@.len() ==> other.passive@.contains(
                    #[trigger] self.passive@[i],
                ),
        ensures
            self.wf(),
    {
        assert forall|i: int| 0 <= i < self.spec_active().len() implies (
        #[trigger] self.spec_active()[i]) < self.clauses().len() by {
            assert(other.spec_active()[i] < other.clauses().len());
        }
        assert forall|i: int| 0 <= i < self.spec_passive().len() implies (
        #[trigger] self.spec_passive()[i]) < self.clauses().len() by {
            assert(other.passive@.contains(self.passive@[i]));
            let j = choose|j: int|
                0 <= j < other.passive@.len() && other.passive@[j] == self.passive@[i];
            assert(other.spec_passive()[j] < other.clauses().len());
        }
    }

    proof fn lemma_ran_trans(&self, mid: &Saturation, before: &Saturation)
        requires
            mid.ran(before),
            self.ran(mid),
            before.wf(),
        ensures
            self.ran(before),
    {
        let a = before.clauses();
        let b = mid.clauses();
        let c = self.clauses();
        assert forall|k: int| 0 <= k < a.len() implies a[k] == c[k] by {
            assert(a[k] == b[k] && b[k] == c[k]);
        }
        assert(a =~= c.subrange(0, a.len() as int));
        assert forall|k: int| a.len() <= k < c.len() implies !(
        (#[trigger] c[k]).inference.rule is Input) by {
            if k < b.len() {
                assert(b[k] == c[k]);
            }
        }
        let x = before.spec_arena();
        let y = mid.spec_arena();
        let z = self.spec_arena();
        assert(x.data() =~= z.data().subrange(0, x.data().len() as int)) by {
            assert forall|k: int| 0 <= k < x.data().len() implies x.data()[k] == z.data()[k] by {
                assert(x.data()[k] == y.data()[k] && y.data()[k] == z.data()[k]);
            }
        }
        assert(x.pool() =~= z.pool().subrange(0, x.pool().len() as int)) by {
            assert forall|k: int| 0 <= k < x.pool().len() implies x.pool()[k] == z.pool()[k] by {
                assert(x.pool()[k] == y.pool()[k] && y.pool()[k] == z.pool()[k]);
            }
        }
    }

    /// Derives and stores the factors of a clause.
    fn factor_step(&mut self, given_id: ClauseId) -> (r: Emitted)
        requires
            old(self).wf(),
            given_id < old(self).clauses().len(),
        ensures
            final(self).ran(old(self)),
            derived_from(
                final(self).clauses(),
                old(self).clauses().len() as int,
                given_id as int,
            ),
            not_empty_since(
                final(self).clauses(),
                old(self).clauses().len() as int,
                r.empty_id(),
            ),
            final(self).spec_active() == old(self).spec_active(),
            match r {
                Emitted::All => {
                    &&& old(self).at(given_id as int, -1) ==> final(self).at(given_id as int, 0)
                    &&& factors_done(
                        final(self).contents(),
                        keys(final(self).clauses()),
                        given_id as int,
                    )
                    &&& final(self).spec_passive() == old(self).spec_passive() + id_range(
                        old(self).clauses().len() as int,
                        final(self).clauses().len() as int,
                    )
                },
                Emitted::Empty(id) => {
                    let key = keys(final(self).clauses())[id as int]->Some_0;
                    &&& final(self).ends_empty(old(self), id)
                    &&& key.partner == -1
                    &&& factors_done_before(
                        final(self).contents(),
                        keys(final(self).clauses()),
                        given_id as int,
                        (key.a, key.b),
                    )
                },
                Emitted::Full => {
                    &&& final(self).ends_full(old(self))
                    &&& factors_blocked(
                        final(self).contents(),
                        keys(final(self).clauses()),
                        given_id as int,
                        old(self).stock(),
                        final(self).stock(),
                        final(self).full(),
                    )
                },
            },
            final(self).contents()[given_id as int] == old(self).contents()[given_id as int],
            !(r is Full) ==> final(self).stock() == after_factoring(
                old(self).stock(),
                old(self).contents()[given_id as int],
            ),
            old(self).at(given_id as int, -1) ==> ordered(keys(final(self).clauses())),
            staged(
                final(self).contents(),
                keys(final(self).clauses()),
                old(self).clauses().len() as int,
                given_id as int,
                -1,
                old(self).stock(),
            ),
    {
        let ghost start = *self;
        let ghost g = given_id as int;
        proof {
            self.clause_store.ids_are_positions();
            assert(lits_valid(self.clauses()[g].literals, &self.spec_arena()));
        }
        let (results, ok) = try_factor(self.clause_store.get(given_id), &mut self.arena);
        proof {
            self.growing_the_arena_keeps_the_search(&start);
        }
        if !ok {
            assert(self.passive@ =~= start.passive@ + id_range(
                start.clauses().len() as int,
                self.clauses().len() as int,
            ));
            proof {
                assert(self.contents()[g] == start.contents()[g]);
            }
            return Emitted::Full;
        }
        let ghost mid = *self;
        let ghost rs = results@;
        let ghost d = mid.contents()[g];
        proof {
            assert(d == start.contents()[g]);
            assert(d == lits(start.clauses()[g].literals, &start.spec_arena()));
            assert forall|k: int| 0 <= k < rs.len() implies {
                let rule = (#[trigger] rs[k]).1@.rule;
                &&& lits_valid(views(rs[k].0@), &mid.spec_arena())
                &&& justified(mid.clauses(), &mid.spec_arena(), views(rs[k].0@), rs[k].1@)
                &&& key_of(rule) == Some(
                    Key { given: g, partner: -1, a: pair_of(rule).0, b: pair_of(rule).1 },
                )
            } by {
                assert(factoring_entry(
                    given_id,
                    d,
                    &mid.spec_arena(),
                    views(rs[k].0@),
                    rs[k].1@,
                ));
            }
        }
        let r = self.emit_all(results);
        proof {
            self.lemma_ran_trans(&mid, &start);
            let n = choose|n: int|
                0 <= n <= rs.len() && #[trigger] appended(mid.clauses(), self.clauses(), rs, n);
            lemma_derived_from(mid.clauses(), self.clauses(), rs, n, g);
            lemma_contents_prefix(mid.clauses(), self.clauses(), &self.spec_arena());
            let cs = self.contents();
            let ks = keys(self.clauses());
            assert(cs[g] == d);
            assert forall|k: int| 0 <= k < rs.len() implies lits(
                views((#[trigger] rs[k]).0@),
                &mid.spec_arena(),
            ) == factor_at(d, pair_of(rs[k].1@.rule).0, pair_of(rs[k].1@.rule).1) by {
                lemma_factoring_merges(given_id, d, &mid.spec_arena(), views(rs[k].0@), rs[k].1@);
            }
            lemma_staged(
                mid.clauses(),
                self.clauses(),
                &self.spec_arena(),
                rs,
                n,
                g,
                -1,
                start.stock(),
            );
            if start.at(g, -1) {
                lemma_progress_grows(
                    mid.contents(),
                    self.contents(),
                    mid.clauses(),
                    self.clauses(),
                    rs,
                    self.active@,
                    mid.passive@,
                    n,
                    g,
                    -1,
                    -1,
                );
            }
            if r is All {
                assert(factors_done(cs, ks, g)) by {
                    assert forall|i: int, j: int|
                        0 <= i < j < cs[g].len() && mergeable(
                            #[trigger] cs[g][i],
                            #[trigger] cs[g][j],
                        ) implies ks.contains(
                        Some(Key { given: g, partner: -1, a: i, b: j }),
                    ) by {
                        assert(mergeable(d[i], d[j]));
                        assert(found(rs, (i, j)));
                        lemma_found_key(mid.clauses(), self.clauses(), rs, g, -1, i, j);
                    }
                }
                if start.at(g, -1) {
                    assert(self.at(g, 0));
                }
            }
            if let Emitted::Empty(id) = r {
                let key = ks[id as int]->Some_0;
                let n0 = mid.clauses().len() as int;
                assert(self.clauses()[n0 + (n - 1)].inference == rs[n - 1].1@);
                assert(ks[id as int] == key_of(rs[n - 1].1@.rule));
                assert forall|i: int, j: int|
                    0 <= i < j < cs[g].len() && mergeable(
                        #[trigger] cs[g][i],
                        #[trigger] cs[g][j],
                    ) && pair_before((i, j), (key.a, key.b)) implies ks.contains(
                    Some(Key { given: g, partner: -1, a: i, b: j }),
                ) by {
                    assert(mergeable(d[i], d[j]));
                    assert(found(rs, (i, j)));
                    lemma_found_key_before(
                        mid.clauses(),
                        self.clauses(),
                        rs,
                        n,
                        n - 1,
                        g,
                        -1,
                        i,
                        j,
                    );
                }
            }
            if r is Full {
                let m = choose|m: int|
                    0 <= m < rs.len() && #[trigger] appended(
                        mid.clauses(),
                        self.clauses(),
                        rs,
                        m,
                    ) && (self.full() || too_heavy(
                        lits(views(rs[m].0@), &mid.spec_arena()),
                    ));
                let (x, y) = pair_of(rs[m].1@.rule);
                assert(factoring_entry(
                    given_id,
                    d,
                    &mid.spec_arena(),
                    views(rs[m].0@),
                    rs[m].1@,
                ));
                lemma_factoring_merges(given_id, d, &mid.spec_arena(), views(rs[m].0@), rs[m].1@);
                assert(mergeable(cs[g][x], cs[g][y]));
                assert forall|i: int, j: int|
                    0 <= i < j < cs[g].len() && mergeable(
                        #[trigger] cs[g][i],
                        #[trigger] cs[g][j],
                    ) && pair_before((i, j), (x, y)) implies ks.contains(
                    Some(Key { given: g, partner: -1, a: i, b: j }),
                ) by {
                    assert(mergeable(d[i], d[j]));
                    assert(found(rs, (i, j)));
                    lemma_found_key_before(
                        mid.clauses(),
                        self.clauses(),
                        rs,
                        m,
                        m,
                        g,
                        -1,
                        i,
                        j,
                    );
                }
                assert(factors_done_before(cs, ks, g, (x, y)));
                lemma_at_most_itself(self.stock());
            }
        }
        r
    }

    /// Derives and stores the resolvents of two clauses.
    fn resolve_step(&mut self, given_id: ClauseId, active_id: ClauseId) -> (r: Emitted)
        requires
            old(self).wf(),
            given_id < old(self).clauses().len(),
            active_id < old(self).clauses().len(),
        ensures
            final(self).ran(old(self)),
            derived_from(
                final(self).clauses(),
                old(self).clauses().len() as int,
                given_id as int,
            ),
            not_empty_since(
                final(self).clauses(),
                old(self).clauses().len() as int,
                r.empty_id(),
            ),
            final(self).spec_active() == old(self).spec_active(),
            match r {
                Emitted::All => {
                    &&& old(self).at(given_id as int, active_id as int) && active_id < given_id
                        ==> final(self).at(given_id as int, active_id + 1)
                    &&& resolvents_done(
                        final(self).contents(),
                        keys(final(self).clauses()),
                        given_id as int,
                        active_id as int,
                    )
                    &&& final(self).spec_passive() == old(self).spec_passive() + id_range(
                        old(self).clauses().len() as int,
                        final(self).clauses().len() as int,
                    )
                },
                Emitted::Empty(id) => {
                    let key = keys(final(self).clauses())[id as int]->Some_0;
                    &&& final(self).ends_empty(old(self), id)
                    &&& key.partner == active_id
                    &&& resolvents_done_before(
                        final(self).contents(),
                        keys(final(self).clauses()),
                        given_id as int,
                        active_id as int,
                        (key.a, key.b),
                    )
                },
                Emitted::Full => {
                    &&& final(self).ends_full(old(self))
                    &&& resolvents_blocked(
                        final(self).contents(),
                        keys(final(self).clauses()),
                        given_id as int,
                        active_id as int,
                        old(self).stock(),
                        final(self).stock(),
                        final(self).full(),
                    )
                },
            },
            !(r is Full) ==> final(self).stock() == after_resolving(
                old(self).stock(),
                old(self).contents()[given_id as int],
                old(self).contents()[active_id as int],
            ),
            old(self).at(given_id as int, active_id as int) && active_id < given_id ==> ordered(
                keys(final(self).clauses()),
            ),
            staged(
                final(self).contents(),
                keys(final(self).clauses()),
                old(self).clauses().len() as int,
                given_id as int,
                active_id as int,
                old(self).stock(),
            ),
    {
        let ghost start = *self;
        let ghost g = given_id as int;
        let ghost p = active_id as int;
        proof {
            self.clause_store.ids_are_positions();
            assert(lits_valid(self.clauses()[g].literals, &self.spec_arena()));
            assert(lits_valid(self.clauses()[p].literals, &self.spec_arena()));
        }
        let (results, ok) = try_resolve(
            self.clause_store.get(given_id),
            self.clause_store.get(active_id),
            &mut self.var_gen,
            &mut self.arena,
        );
        let ghost mid = *self;
        proof {
            lemma_all_justified_extends(
                start.clauses(),
                &start.spec_arena(),
                &self.spec_arena(),
            );
            assert forall|i: int| 0 <= i < self.passive@.len() implies start.passive@.contains(
                #[trigger] self.passive@[i],
            ) by {
                assert(start.passive@[i] == self.passive@[i]);
            }
            self.lemma_queues(&start);
        }
        if !ok {
            assert(self.contents() == start.contents());
            assert(self.passive@ =~= start.passive@ + id_range(
                start.clauses().len() as int,
                self.clauses().len() as int,
            ));
            return Emitted::Full;
        }
        let ghost rs = results@;
        let ghost c1 = start.contents()[g];
        let ghost c2 = start.contents()[p];
        let ghost lo = start.var_gen.next() as int;
        let ghost between = after_renaming(start.stock(), c1).next;
        let ghost hi = self.var_gen.next() as int;
        let ghost d1 = renamed(c1, lo);
        let ghost d2 = renamed(c2, between);
        proof {
            assert(c1 == lits(start.clauses()[g].literals, &start.spec_arena()));
            assert(c2 == lits(start.clauses()[p].literals, &start.spec_arena()));
            assert(renamed_apart(c1, d1, lo, between) && renamed_apart(c2, d2, between, hi));
            assert(both_renamed(c1, c2, d1, d2, lo, hi));
            assert(mid.contents() == start.contents());
            assert forall|k: int| 0 <= k < rs.len() implies {
                let rule = (#[trigger] rs[k]).1@.rule;
                &&& lits_valid(views(rs[k].0@), &mid.spec_arena())
                &&& justified(mid.clauses(), &mid.spec_arena(), views(rs[k].0@), rs[k].1@)
                &&& key_of(rule) == Some(
                    Key { given: g, partner: p, a: pair_of(rule).0, b: pair_of(rule).1 },
                )
            } by {
                assert(resolution_entry(
                    given_id,
                    active_id,
                    d1,
                    d2,
                    &mid.spec_arena(),
                    views(rs[k].0@),
                    rs[k].1@,
                ));
                assert(both_renamed(
                    lits(mid.clauses()[g].literals, &mid.spec_arena()),
                    lits(mid.clauses()[p].literals, &mid.spec_arena()),
                    d1,
                    d2,
                    lo,
                    hi,
                )) by {
                    assert(mid.contents()[g] == c1);
                    assert(mid.contents()[p] == c2);
                }
            }
        }
        let r = self.emit_all(results);
        proof {
            self.lemma_ran_trans(&mid, &start);
            let n = choose|n: int|
                0 <= n <= rs.len() && #[trigger] appended(mid.clauses(), self.clauses(), rs, n);
            lemma_derived_from(mid.clauses(), self.clauses(), rs, n, g);
            lemma_contents_prefix(mid.clauses(), self.clauses(), &self.spec_arena());
            let cs = self.contents();
            let ks = keys(self.clauses());
            assert(cs[g] == c1);
            assert(cs[p] == c2);
            assert forall|k: int| 0 <= k < rs.len() implies lits(
                views((#[trigger] rs[k]).0@),
                &mid.spec_arena(),
            ) == resolvent(d1, d2, pair_of(rs[k].1@.rule).0, pair_of(rs[k].1@.rule).1) by {
                lemma_resolution_resolves(
                    given_id,
                    active_id,
                    d1,
                    d2,
                    &mid.spec_arena(),
                    views(rs[k].0@),
                    rs[k].1@,
                );
            }
            lemma_staged(
                mid.clauses(),
                self.clauses(),
                &self.spec_arena(),
                rs,
                n,
                g,
                p,
                start.stock(),
            );
            if start.at(g, p) && p < g {
                assert(mid.at(g, p));
                lemma_progress_grows(
                    mid.contents(),
                    self.contents(),
                    mid.clauses(),
                    self.clauses(),
                    rs,
                    self.active@,
                    mid.passive@,
                    n,
                    g,
                    p,
                    p,
                );
            }
            if r is All {
                assert(resolvents_done(cs, ks, g, p)) by {
                    assert forall|i: int, j: int|
                        0 <= i < cs[g].len() && 0 <= j < cs[p].len() && clash(
                            #[trigger] cs[g][i],
                            #[trigger] cs[p][j],
                        ) implies ks.contains(Some(Key { given: g, partner: p, a: i, b: j })) by {
                        renaming_keeps_clashes(c1, c2, d1, d2, lo, hi, i, j);
                        assert(resolvable(d1[i], d2[j]));
                        assert(found(rs, (i, j)));
                        lemma_found_key(mid.clauses(), self.clauses(), rs, g, p, i, j);
                    }
                }
                if start.at(g, p) && p < g {
                    assert(self.at(g, p + 1));
                }
            }
            if let Emitted::Empty(id) = r {
                let key = ks[id as int]->Some_0;
                let n0 = mid.clauses().len() as int;
                assert(self.clauses()[n0 + (n - 1)].inference == rs[n - 1].1@);
                assert(ks[id as int] == key_of(rs[n - 1].1@.rule));
                assert forall|i: int, j: int|
                    0 <= i < cs[g].len() && 0 <= j < cs[p].len() && clash(
                        #[trigger] cs[g][i],
                        #[trigger] cs[p][j],
                    ) && pair_before((i, j), (key.a, key.b)) implies ks.contains(
                    Some(Key { given: g, partner: p, a: i, b: j }),
                ) by {
                    renaming_keeps_clashes(c1, c2, d1, d2, lo, hi, i, j);
                    assert(resolvable(d1[i], d2[j]));
                    assert(found(rs, (i, j)));
                    lemma_found_key_before(
                        mid.clauses(),
                        self.clauses(),
                        rs,
                        n,
                        n - 1,
                        g,
                        p,
                        i,
                        j,
                    );
                }
            }
            if r is Full {
                let m = choose|m: int|
                    0 <= m < rs.len() && #[trigger] appended(
                        mid.clauses(),
                        self.clauses(),
                        rs,
                        m,
                    ) && (self.full() || too_heavy(
                        lits(views(rs[m].0@), &mid.spec_arena()),
                    ));
                let (x, y) = pair_of(rs[m].1@.rule);
                assert(resolution_entry(
                    given_id,
                    active_id,
                    d1,
                    d2,
                    &mid.spec_arena(),
                    views(rs[m].0@),
                    rs[m].1@,
                ));
                lemma_resolution_resolves(
                    given_id,
                    active_id,
                    d1,
                    d2,
                    &mid.spec_arena(),
                    views(rs[m].0@),
                    rs[m].1@,
                );
                assert(resolvable(d1[x], d2[y]));
                assert forall|i: int, j: int|
                    0 <= i < cs[g].len() && 0 <= j < cs[p].len() && clash(
                        #[trigger] cs[g][i],
                        #[trigger] cs[p][j],
                    ) && pair_before((i, j), (x, y)) implies ks.contains(
                    Some(Key { given: g, partner: p, a: i, b: j }),
                ) by {
                    renaming_keeps_clashes(c1, c2, d1, d2, lo, hi, i, j);
                    assert(resolvable(d1[i], d2[j]));
                    assert(found(rs, (i, j)));
                    lemma_found_key_before(
                        mid.clauses(),
                        self.clauses(),
                        rs,
                        m,
                        m,
                        g,
                        p,
                        i,
                        j,
                    );
                }
                assert(resolvents_done_before(cs, ks, g, p, (x, y)));
                lemma_at_most_itself(self.stock());
            }
        }
        r
    }

    /// Processes one clause: derives its factors and its resolvents with all
    /// processed clauses, and adds it to those.
    #[verifier::rlimit(60)]
    fn process(&mut self, given_id: ClauseId) -> (r: Emitted)
        requires
            old(self).wf(),
            given_id < old(self).clauses().len(),
            old(self).clauses()[given_id as int].literals.len() > 0,
        ensures
            final(self).ran(old(self)),
            derived_from(
                final(self).clauses(),
                old(self).clauses().len() as int,
                given_id as int,
            ),
            not_empty_since(
                final(self).clauses(),
                old(self).clauses().len() as int,
                r.empty_id(),
            ),
            match r {
                Emitted::All => {
                    &&& final(self).spec_active() == old(self).spec_active().push(given_id)
                    &&& final(self).spec_passive() == old(self).spec_passive() + id_range(
                        old(self).clauses().len() as int,
                        final(self).clauses().len() as int,
                    )
                    &&& worked(
                        final(self).contents(),
                        keys(final(self).clauses()),
                        final(self).spec_active(),
                        old(self).spec_active().len() as int,
                    )
                    &&& old(self).at(given_id as int, -1) ==> final(self).on_track()
                },
                Emitted::Empty(id) => {
                    &&& final(self).spec_active() == old(self).spec_active()
                    &&& final(self).ends_empty(old(self), id)
                    &&& worked_before(
                        final(self).contents(),
                        keys(final(self).clauses()),
                        final(self).spec_active(),
                        keys(final(self).clauses())[id as int]->Some_0,
                        old(self).stock(),
                        final(self).stock(),
                    )
                },
                Emitted::Full => {
                    &&& final(self).spec_active() == old(self).spec_active()
                    &&& final(self).ends_full(old(self))
                    &&& blocked(
                        final(self).contents(),
                        keys(final(self).clauses()),
                        final(self).spec_active(),
                        given_id as int,
                        old(self).stock(),
                        final(self).stock(),
                        final(self).full(),
                    )
                },
            },
            r is All ==> final(self).stock() == used_pairs(
                old(self).stock(),
                final(self).contents(),
                given_id as int,
                old(self).spec_active(),
                old(self).spec_active().len(),
            ),
            old(self).at(given_id as int, -1) ==> ordered(keys(final(self).clauses())),
            exists|stages: Seq<int>| #[trigger]
                given_made(
                    final(self).contents(),
                    keys(final(self).clauses()),
                    old(self).clauses().len() as int,
                    given_id as int,
                    old(self).spec_active(),
                    old(self).stock(),
                    stages,
                ),
    {
        let ghost popped = *self;
        let ghost g = given_id as int;
        let ghost tracked_run = self.at(g, -1);
        let step0 = self.factor_step(given_id);
        let ghost mut stages: Seq<int> = Seq::empty();
        proof {
            popped.lemma_growth(self);
            assert forall|b: int| 0 <= b < popped.active@.len() implies (
            #[trigger] popped.active@[b]) < popped.contents().len() by {
                assert(popped.spec_active()[b] < popped.clauses().len());
            }
            stages =
            lemma_given_made(
                popped.contents(),
                keys(popped.clauses()),
                self.contents(),
                keys(self.clauses()),
                popped.clauses().len() as int,
                g,
                popped.active@,
                popped.stock(),
                stages,
                0,
            );
        }
        match step0 {
            Emitted::All => {},
            Emitted::Empty(id) => {
                return Emitted::Empty(id);
            },
            Emitted::Full => {
                proof {
                    assert(blocked_at(
                        self.contents(),
                        keys(self.clauses()),
                        self.spec_active(),
                        g,
                        popped.stock(),
                        self.stock(),
                        self.full(),
                        0,
                    ));
                }
                return Emitted::Full;
            },
        }
        assert(popped.contents()[g].len() > 0);
        let n: usize = self.active.len();
        let mut p: usize = 0;
        while p < n
            invariant
                popped.wf(),
                popped == *old(self),
                self.ran(&popped),
                derived_from(self.clauses(), popped.clauses().len() as int, g),
                not_empty_since(self.clauses(), popped.clauses().len() as int, -1),
                self.active@ == popped.active@,
                n == popped.active@.len(),
                p <= n,
                given_id < popped.clauses().len(),
                g == given_id,
                tracked_run == popped.at(g, -1),
                given_made(
                    self.contents(),
                    keys(self.clauses()),
                    popped.clauses().len() as int,
                    g,
                    popped.active@,
                    popped.stock(),
                    stages,
                ),
                forall|i: int| 0 <= i < stages.len() ==> (#[trigger] stages[i]) <= p,
                tracked_run ==> self.at(g, p as int),
                self.stock() == used_pairs(
                    popped.stock(),
                    self.contents(),
                    g,
                    popped.active@,
                    p as nat,
                ),
                self.passive@ == popped.passive@ + id_range(
                    popped.clauses().len() as int,
                    self.clauses().len() as int,
                ),
                self.contents()[g].len() > 0,
                factors_done(self.contents(), keys(self.clauses()), g),
                forall|b: int|
                    0 <= b < p ==> resolvents_done(
                        self.contents(),
                        keys(self.clauses()),
                        g,
                        #[trigger] self.active@[b] as int,
                    ),
            decreases n - p,
        {
            let active_id: ClauseId = self.active[p];
            let ghost before = *self;
            proof {
                assert(popped.spec_active()[p as int] < popped.clauses().len());
                if tracked_run {
                    assert(self.active@[p as int] == id_range(0, g)[p as int]);
                }
            }
            let step = self.resolve_step(given_id, active_id);
            proof {
                before.lemma_growth(self);
                assert forall|b: int| 0 <= b < popped.active@.len() implies (
                #[trigger] popped.active@[b]) < before.contents().len() by {
                    assert(popped.spec_active()[b] < popped.clauses().len());
                }
                lemma_used_pairs_same(
                    popped.stock(),
                    before.contents(),
                    self.contents(),
                    g,
                    popped.active@,
                    p as nat,
                );
                assert(self.contents()[g] == before.contents()[g]);
                assert(self.contents()[active_id as int] == before.contents()[active_id as int]);
                stages =
                lemma_given_made(
                    before.contents(),
                    keys(before.clauses()),
                    self.contents(),
                    keys(self.clauses()),
                    popped.clauses().len() as int,
                    g,
                    popped.active@,
                    popped.stock(),
                    stages,
                    p + 1,
                );
            }
            match step {
                Emitted::All => {},
                Emitted::Empty(id) => {
                    proof {
                        self.lemma_ran_trans(&before, &popped);
                        lemma_derived_from_trans(
                            popped.clauses(),
                            before.clauses(),
                            self.clauses(),
                            g,
                            id as int,
                        );
                        lemma_queued(&popped, &before, self, id as int);
                        before.lemma_growth(self);
                        lemma_worked_before(&before, self, &popped, given_id, p as int, id);
                    }
                    return Emitted::Empty(id);
                },
                Emitted::Full => {
                    proof {
                        self.lemma_ran_trans(&before, &popped);
                        lemma_derived_from_trans(
                            popped.clauses(),
                            before.clauses(),
                            self.clauses(),
                            g,
                            -1,
                        );
                        lemma_queued(&popped, &before, self, self.clauses().len() as int);
                        lemma_blocked(&before, self, &popped, given_id, p as int);
                    }
                    return Emitted::Full;
                },
            }
            proof {
                self.lemma_ran_trans(&before, &popped);
                lemma_derived_from_trans(
                    popped.clauses(),
                    before.clauses(),
                    self.clauses(),
                    g,
                    -1,
                );
                before.lemma_growth(self);
                lemma_done_grows(&before, self, &popped, given_id, p as int);
                lemma_queued(&popped, &before, self, self.clauses().len() as int);
            }
            p += 1;
        }
        let ghost stepped = *self;
        self.active.push(given_id);
        proof {
            lemma_finish(&stepped, self, given_id, tracked_run);
            assert(self.ran(&stepped));
            self.lemma_ran_trans(&stepped, &popped);
            assert(self.contents() == stepped.contents());
            let cs = self.contents();
            let ks = keys(self.clauses());
            assert forall|b: int| 0 <= b < n implies resolvents_done(
                cs,
                ks,
                g,
                #[trigger] self.active@[b] as int,
            ) by {
                assert(resolvents_done(cs, ks, g, stepped.active@[b] as int));
            }
        }
        Emitted::All
    }

    /// Processes waiting clauses, oldest first: derives all factors of the
    /// clause and all resolvents with the clauses processed before it. Ends
    /// when the empty clause is met or derived, when no clause is waiting, or
    /// when the store holds `max_clauses` clauses at the start of a step or
    /// 32-bit numbers do not suffice for the next inference.
    #[verifier::rlimit(80)]
    pub fn run(&mut self, max_clauses: usize) -> (r: SaturationResult)
        requires
            old(self).wf(),
        ensures
            final(self).wf(),
            final(self).spec_arena().extends(&old(self).spec_arena()),
            old(self).clauses().is_prefix_of(final(self).clauses()),
            derived_since(final(self).clauses(), old(self).clauses().len() as int),
            within_limit(
                final(self).clauses(),
                old(self).clauses().len() as int,
                max_clauses as int,
            ),
            not_empty_since(
                final(self).clauses(),
                old(self).clauses().len() as int,
                match r {
                    SaturationResult::Proved(id) => id as int,
                    _ => -1,
                },
            ),
            old(self).clauses().len() >= max_clauses ==> {
                &&& r == SaturationResult::ClauseLimitReached
                &&& *final(self) == *old(self)
            },
            match r {
                SaturationResult::Proved(id) => {
                    &&& id < final(self).clauses().len()
                    &&& final(self).clauses()[id as int].literals.len() == 0
                    &&& if id < old(self).clauses().len() {
                        &&& final(self).clauses().len() < max_clauses
                        &&& final(self).stopped_from(
                            old(self),
                            id,
                            final(self).clauses().len() as int,
                        )
                        &&& final(self).stock() == final(self).steps_from(old(self))
                    } else {
                        let key = keys(final(self).clauses())[id as int]->Some_0;
                        &&& id == final(self).clauses().len() - 1
                        &&& final(self).stopped_from(
                            old(self),
                            key.given as ClauseId,
                            id as int,
                        )
                        &&& began_below(final(self).clauses(), key.given, max_clauses as int)
                        &&& worked_before(
                            final(self).contents(),
                            keys(final(self).clauses()),
                            final(self).spec_active(),
                            key,
                            final(self).steps_from(old(self)),
                            final(self).stock(),
                        )
                    }
                },
                SaturationResult::Saturated => {
                    &&& final(self).clauses().len() < max_clauses
                    &&& final(self).spec_passive().len() == 0
                    &&& final(self).stepped_from(old(self))
                    &&& final(self).spec_active().len() > old(self).spec_active().len()
                        ==> began_below(
                        final(self).clauses(),
                        final(self).spec_active().last() as int,
                        max_clauses as int,
                    )
                    &&& old(self).on_track() ==> final(self).on_track()
                },
                SaturationResult::ClauseLimitReached => {
                    ||| exists|given: ClauseId| #[trigger]
                        final(self).stopped_from(
                            old(self),
                            given,
                            final(self).clauses().len() as int,
                        ) && blocked(
                            final(self).contents(),
                            keys(final(self).clauses()),
                            final(self).spec_active(),
                            given as int,
                            final(self).steps_from(old(self)),
                            final(self).stock(),
                            final(self).full(),
                        ) && began_below(
                            final(self).clauses(),
                            given as int,
                            max_clauses as int,
                        )
                    ||| {
                        &&& final(self).clauses().len() >= max_clauses
                        &&& final(self).stepped_from(old(self))
                        &&& final(self).spec_active().len() > old(self).spec_active().len()
                            ==> began_below(
                            final(self).clauses(),
                            final(self).spec_active().last() as int,
                            max_clauses as int,
                        )
                        &&& old(self).on_track() ==> final(self).on_track()
                    }
                },
            },
            old(self).on_track() ==> ordered(keys(final(self).clauses())),
    {
        proof {
            assert(self.ran(old(self)));
            assert(made_in_order(
                self.contents(),
                keys(self.clauses()),
                self.spec_active(),
                self.spec_active().len() as int,
                self.stock(),
                self.clauses().len() as int,
                Seq::empty(),
            ));
            assert(self.passive@ =~= self.passive@ + id_range(
                self.clauses().len() as int,
                self.clauses().len() as int,
            ));
            assert(self.active@ + self.passive@ =~= old(self).active@ + (old(self).passive@
                + id_range(self.clauses().len() as int, self.clauses().len() as int)));
        }
        loop
            invariant
                old(self).wf(),
                self.ran(old(self)),
                self.stepped_from(old(self)),
                within_limit(
                    self.clauses(),
                    old(self).clauses().len() as int,
                    max_clauses as int,
                ),
                not_empty_since(self.clauses(), old(self).clauses().len() as int, -1),
                self.active@.len() > old(self).active@.len() ==> began_below(
                    self.clauses(),
                    self.active@.last() as int,
                    max_clauses as int,
                ),
                old(self).on_track() ==> self.on_track(),
                old(self).clauses().len() >= max_clauses ==> *self == *old(self),
            decreases
                    (if max_clauses >= self.clauses().len() {
                        max_clauses - self.clauses().len()
                    } else {
                        0
                    }),
                    self.spec_passive().len(),
        {
            if self.clause_store.len() >= max_clauses {
                return SaturationResult::ClauseLimitReached;
            }
            let ghost start = *self;
            let given_id: ClauseId = match self.passive.pop_front() {
                Some(id) => id,
                None => {
                    proof {
                        self.lemma_queues(&start);
                        assert(self.passive@ == start.passive@);
                        assert(self.stepped_from(old(self))) by {
                            assert(start.stepped_from(old(self)));
                            assert(self.contents() == start.contents());
                        }
                        assert(self.contents() == start.contents());
                        assert(start.on_track() ==> self.on_track());
                    }
                    return SaturationResult::Saturated;
                },
            };
            let ghost g = given_id as int;
            proof {
                assert(start.spec_passive()[0] == given_id);
                assert forall|i: int| 0 <= i < self.passive@.len() implies start.passive@.contains(
                    #[trigger] self.passive@[i],
                ) by {
                    assert(start.passive@[i + 1] == self.passive@[i]);
                }
                self.lemma_queues(&start);
                assert(self.ran(&start));
                self.lemma_ran_trans(&start, old(self));
            }
            if self.clause_store.get(given_id).is_empty() {
                proof {
                    assert(self.passive@ =~= self.passive@ + id_range(
                        self.clauses().len() as int,
                        self.clauses().len() as int,
                    ));
                    assert(self.ran(self));
                    assert(given_made(
                        self.contents(),
                        keys(self.clauses()),
                        start.clauses().len() as int,
                        g,
                        start.active@,
                        start.stock(),
                        Seq::empty(),
                    ));
                    lemma_stopped(
                        old(self),
                        &start,
                        self,
                        self,
                        given_id,
                        self.clauses().len() as int,
                    );
                }
                return SaturationResult::Proved(given_id);
            }
            proof {
                if start.on_track() {
                    lemma_start(&start, self, g);
                }
            }
            let ghost popped = *self;
            let step = self.process(given_id);
            assert(derived_from(self.clauses(), popped.clauses().len() as int, g));
            assert(began_below(self.clauses(), g, max_clauses as int));
            match step {
                Emitted::All => {},
                Emitted::Empty(id) => {
                    proof {
                        self.lemma_ran_trans(&popped, old(self));
                        lemma_limit_step(
                            old(self).clauses(),
                            popped.clauses(),
                            self.clauses(),
                            g,
                            id as int,
                            max_clauses as int,
                        );
                        lemma_stopped(old(self), &start, &popped, self, given_id, id as int);
                        assert(keys(self.clauses())[id as int]->Some_0.given == g);
                    }
                    return SaturationResult::Proved(id);
                },
                Emitted::Full => {
                    proof {
                        self.lemma_ran_trans(&popped, old(self));
                        lemma_limit_step(
                            old(self).clauses(),
                            popped.clauses(),
                            self.clauses(),
                            g,
                            -1,
                            max_clauses as int,
                        );
                        lemma_stopped(
                            old(self),
                            &start,
                            &popped,
                            self,
                            given_id,
                            self.clauses().len() as int,
                        );
                    }
                    return SaturationResult::ClauseLimitReached;
                },
            }
            proof {
                self.lemma_ran_trans(&popped, old(self));
                lemma_limit_step(
                    old(self).clauses(),
                    popped.clauses(),
                    self.clauses(),
                    g,
                    -1,
                    max_clauses as int,
                );
                lemma_stepped(old(self), &start, &popped, self, given_id);
            }
        }
    }
}

/// A step that starts below the limit keeps within it.
proof fn lemma_limit_step(
    first: Seq<ClauseView>,
    before: Seq<ClauseView>,
    after: Seq<ClauseView>,
    g: int,
    last: int,
    max: int,
)
    requires
        first.len() <= before.len() < max,
        before.is_prefix_of(after),
        not_empty_since(before, first.len() as int, -1),
        derived_from(after, before.len() as int, g),
        not_empty_since(after, before.len() as int, last),
    ensures
        within_limit(after, first.len() as int, max),
        not_empty_since(after, first.len() as int, last),
{
    assert forall|k: int, l: int|
        first.len() <= k < l < after.len() && max <= k + 1 implies (
    #[trigger] keys(after)[k])->Some_0.given == (#[trigger] keys(after)[l])->Some_0.given by {
        assert(before.len() <= k);
    }
    assert forall|k: int| first.len() <= k < after.len() && k != last implies (
    #[trigger] after[k]).literals.len() > 0 by {
        if k < before.len() {
            assert(before[k] == after[k]);
        }
    }
}

/// What was done before a step is done after it.
proof fn lemma_done_grows(
    before: &Saturation,
    after: &Saturation,
    popped: &Saturation,
    given_id: ClauseId,
    p: int,
)
    requires
        before.wf(),
        before.contents().is_prefix_of(after.contents()),
        keys(before.clauses()).is_prefix_of(keys(after.clauses())),
        popped.wf(),
        popped.clauses().len() <= before.clauses().len(),
        before.active@ == popped.active@,
        after.active@ == before.active@,
        0 <= p < before.active@.len(),
        given_id < before.clauses().len(),
        before.contents()[given_id as int].len() > 0,
        factors_done(before.contents(), keys(before.clauses()), given_id as int),
        forall|b: int|
            0 <= b < p ==> resolvents_done(
                before.contents(),
                keys(before.clauses()),
                given_id as int,
                #[trigger] before.active@[b] as int,
            ),
        resolvents_done(
            after.contents(),
            keys(after.clauses()),
            given_id as int,
            after.active@[p] as int,
        ),
    ensures
        after.contents()[given_id as int].len() > 0,
        factors_done(after.contents(), keys(after.clauses()), given_id as int),
        forall|b: int|
            0 <= b < p + 1 ==> resolvents_done(
                after.contents(),
                keys(after.clauses()),
                given_id as int,
                #[trigger] after.active@[b] as int,
            ),
{
    let g = given_id as int;
    let cs0 = before.contents();
    let ks0 = keys(before.clauses());
    let cs = after.contents();
    let ks = keys(after.clauses());
    assert(cs[g] == cs0[g]);
    lemma_factors_done_grows(cs0, ks0, cs, ks, g);
    assert forall|b: int| 0 <= b < p + 1 implies resolvents_done(
        cs,
        ks,
        g,
        #[trigger] after.active@[b] as int,
    ) by {
        if b < p {
            assert(popped.spec_active()[b] < popped.clauses().len());
            assert(resolvents_done(cs0, ks0, g, before.active@[b] as int));
            lemma_resolvents_done_grows(cs0, ks0, cs, ks, g, before.active@[b] as int);
        }
    }
}

/// Clauses that were queued in two steps were queued in one.
proof fn lemma_queued(popped: &Saturation, before: &Saturation, after: &Saturation, m: int)
    requires
        popped.clauses().len() <= before.clauses().len() <= m,
        before.passive@ == popped.passive@ + id_range(
            popped.clauses().len() as int,
            before.clauses().len() as int,
        ),
        after.passive@ == before.passive@ + id_range(before.clauses().len() as int, m),
    ensures
        after.passive@ == popped.passive@ + id_range(popped.clauses().len() as int, m),
{
    let n0 = popped.clauses().len() as int;
    let n1 = before.clauses().len() as int;
    assert(id_range(n0, n1) + id_range(n1, m) =~= id_range(n0, m));
    assert(after.passive@ =~= popped.passive@ + id_range(n0, m));
}

/// The results of one stage are stored in order.
proof fn lemma_staged(
    store0: Seq<ClauseView>,
    store: Seq<ClauseView>,
    arena: &TermArena,
    results: Seq<InferenceResult>,
    n: int,
    q: int,
    partner: int,
    s: Stock,
)
    requires
        0 <= n <= results.len(),
        appended(store0, store, results, n),
        in_order(results),
        forall|k: int|
            0 <= k < results.len() ==> {
                let rule = (#[trigger] results[k]).1@.rule;
                key_of(rule) == Some(
                    Key { given: q, partner, a: pair_of(rule).0, b: pair_of(rule).1 },
                )
            },
        forall|k: int|
            0 <= k < results.len() ==> lits(views((#[trigger] results[k]).0@), arena)
                == conclusion(
                contents(store, arena),
                q,
                partner,
                s,
                pair_of(results[k].1@.rule).0,
                pair_of(results[k].1@.rule).1,
            ),
    ensures
        staged(contents(store, arena), keys(store), store0.len() as int, q, partner, s),
{
    let cs = contents(store, arena);
    let ks = keys(store);
    let n0 = store0.len() as int;
    assert forall|k: int| n0 <= k < ks.len() implies {
        let rule = results[k - n0].1@.rule;
        &&& (#[trigger] ks[k]) == Some(
            Key { given: q, partner, a: pair_of(rule).0, b: pair_of(rule).1 },
        )
        &&& cs[k] == lits(views(results[k - n0].0@), arena)
    } by {
        let i = k - n0;
        assert(store[store0.len() + i].inference == results[i].1@);
        assert(store[store0.len() + i].literals == views(results[i].0@));
    }
    assert forall|k: int, l: int| n0 <= k < l < ks.len() implies pair_before(
        ((#[trigger] ks[k])->Some_0.a, ks[k]->Some_0.b),
        ((#[trigger] ks[l])->Some_0.a, ks[l]->Some_0.b),
    ) by {
        assert(pair_before(
            pair_of(results[k - n0].1@.rule),
            pair_of(results[l - n0].1@.rule),
        ));
    }
}

/// One more stage was carried out, in part or in full.
proof fn lemma_given_made(
    cs0: Seq<Seq<Lit>>,
    ks0: Seq<Option<Key>>,
    cs: Seq<Seq<Lit>>,
    ks: Seq<Option<Key>>,
    n: int,
    q: int,
    active: Seq<ClauseId>,
    s: Stock,
    stages: Seq<int>,
    c: int,
) -> (more: Seq<int>)
    requires
        cs0.is_prefix_of(cs),
        ks0.is_prefix_of(ks),
        0 <= n <= cs0.len(),
        0 <= q < cs0.len(),
        0 <= c <= active.len(),
        forall|b: int| 0 <= b < active.len() ==> (#[trigger] active[b]) < cs0.len(),
        given_made(cs0, ks0, n, q, active, s, stages),
        forall|i: int| 0 <= i < stages.len() ==> (#[trigger] stages[i]) < c,
        staged(
            cs,
            ks,
            cs0.len() as int,
            q,
            stage_partner(active, c),
            stage_stock(s, cs, q, active, c),
        ),
    ensures
        given_made(cs, ks, n, q, active, s, more),
        forall|i: int| 0 <= i < more.len() ==> (#[trigger] more[i]) <= c,
{
    let m = cs0.len() as int;
    let more = Seq::new((cs.len() - n) as nat, |i: int| if n + i < m { stages[i] } else { c });
    assert(cs[q] == cs0[q]);
    assert forall|i: int| 0 <= i < more.len() implies staged_at(
        cs,
        ks,
        n + i,
        q,
        active,
        s,
        #[trigger] more[i],
    ) by {
        if n + i < m {
            let e = stages[i];
            assert(staged_at(cs0, ks0, n + i, q, active, s, e));
            assert(ks[n + i] == ks0[n + i] && cs[n + i] == cs0[n + i]);
            if e > 0 {
                lemma_used_pairs_same(s, cs0, cs, q, active, (e - 1) as nat);
                assert(cs[active[e - 1] as int] == cs0[active[e - 1] as int]);
            }
        } else {
            assert(ks[n + i] is Some);
        }
    }
    assert forall|i: int, j: int| 0 <= i < j < more.len() implies {
        ||| (#[trigger] more[i]) < (#[trigger] more[j])
        ||| more[i] == more[j] && pair_before(
            (ks[n + i]->Some_0.a, ks[n + i]->Some_0.b),
            (ks[n + j]->Some_0.a, ks[n + j]->Some_0.b),
        )
    } by {
        if n + j < m {
            assert(stages[i] == more[i] && stages[j] == more[j]);
            assert(ks[n + i] == ks0[n + i] && ks[n + j] == ks0[n + j]);
        } else if n + i < m {
            assert(stages[i] < c);
        } else {
            assert(pair_before(
                (ks[n + i]->Some_0.a, ks[n + i]->Some_0.b),
                (ks[n + j]->Some_0.a, ks[n + j]->Some_0.b),
            ));
        }
    }
    more
}

/// The clauses of one more step come after those of the steps before.
proof fn lemma_places(
    first: &Saturation,
    start: &Saturation,
    done: &Saturation,
    given_id: ClauseId,
    stages: Seq<int>,
)
    requires
        start.wf(),
        start.stepped_from(first),
        first.clauses().len() <= start.clauses().len(),
        start.contents().is_prefix_of(done.contents()),
        keys(start.clauses()).is_prefix_of(keys(done.clauses())),
        given_id < start.clauses().len(),
        given_made(
            done.contents(),
            keys(done.clauses()),
            start.clauses().len() as int,
            given_id as int,
            start.active@,
            start.stock(),
            stages,
        ),
    ensures
        done.made_since(first, start.active@.push(given_id)),
{
    let cs0 = start.contents();
    let ks0 = keys(start.clauses());
    let cs = done.contents();
    let ks = keys(done.clauses());
    let order0 = start.active@;
    let order = order0.push(given_id);
    let from = first.active@.len() as int;
    let s = first.stock();
    let n = first.clauses().len() as int;
    let m = start.clauses().len() as int;
    let step = order0.len() as int;
    let g = given_id as int;
    let places0 = choose|places: Seq<Place>| #[trigger]
        made_in_order(cs0, ks0, order0, from, s, n, places);
    let places = Seq::new(
        (cs.len() - n) as nat,
        |i: int|
            if n + i < m {
                places0[i]
            } else {
                let key = ks[n + i]->Some_0;
                Place { step, stage: stages[n + i - m], a: key.a, b: key.b }
            },
    );
    assert forall|b: int| 0 <= b < order0.len() implies (#[trigger] order0[b]) < cs0.len() by {
        assert(start.spec_active()[b] < start.clauses().len());
    }
    assert(cs[g] == cs0[g]);
    lemma_used_steps_same(s, cs0, cs, order0, order, from as nat, step as nat);
    assert forall|i: int| 0 <= i < places.len() implies made_at(
        cs,
        ks,
        order,
        from,
        s,
        n + i,
        #[trigger] places[i],
    ) by {
        if n + i < m {
            let pl = places0[i];
            assert(made_at(cs0, ks0, order0, from, s, n + i, pl));
            let q = order0[pl.step] as int;
            let s1 = used_steps(s, cs0, order0, from as nat, pl.step as nat);
            lemma_used_steps_same(s, cs0, cs, order0, order, from as nat, pl.step as nat);
            assert(order[pl.step] == order0[pl.step]);
            assert(cs[q] == cs0[q]);
            assert(ks[n + i] == ks0[n + i] && cs[n + i] == cs0[n + i]);
            if pl.stage > 0 {
                let c = (pl.stage - 1) as nat;
                assert(order[c as int] == order0[c as int]);
                assert(cs[order0[c as int] as int] == cs0[order0[c as int] as int]);
                lemma_used_pairs_same(s1, cs0, cs, q, order0, c);
                lemma_used_pairs_active(s1, cs, q, order0, order, c);
            }
        } else {
            let e = stages[n + i - m];
            assert(staged_at(cs, ks, m + (n + i - m), g, order0, start.stock(), e));
            assert(order[step] == given_id);
            if e > 0 {
                assert(order[e - 1] == order0[e - 1]);
                lemma_used_pairs_active(start.stock(), cs, g, order0, order, (e - 1) as nat);
            }
        }
    }
    assert forall|i: int, j: int| 0 <= i < j < places.len() implies place_before(
        #[trigger] places[i],
        #[trigger] places[j],
    ) by {
        if n + j < m {
            assert(place_before(places0[i], places0[j]));
        } else if n + i < m {
            assert(made_at(cs0, ks0, order0, from, s, n + i, places0[i]));
        } else {
            let x = n + i - m;
            let y = n + j - m;
            assert(stages[x] < stages[y] || stages[x] == stages[y]);
            assert(m + x == n + i && m + y == n + j);
        }
    }
    assert(made_in_order(cs, ks, order, from, s, n, places));
}

proof fn lemma_at_most_itself(s: Stock)
    ensures
        at_most(s, s),
{
    assert(s.forest =~= s.forest.subrange(0, s.forest.len() as int));
}

/// What was used depends on the clauses that were processed only.
proof fn lemma_used_pairs_same(
    s: Stock,
    cs0: Seq<Seq<Lit>>,
    cs: Seq<Seq<Lit>>,
    q: int,
    active: Seq<ClauseId>,
    c: nat,
)
    requires
        cs0.is_prefix_of(cs),
        0 <= q < cs0.len(),
        c <= active.len(),
        forall|b: int| 0 <= b < c ==> (#[trigger] active[b]) < cs0.len(),
    ensures
        used_pairs(s, cs, q, active, c) == used_pairs(s, cs0, q, active, c),
    decreases c,
{
    assert(cs[q] == cs0[q]);
    if c > 0 {
        lemma_used_pairs_same(s, cs0, cs, q, active, (c - 1) as nat);
        assert(cs[active[c - 1] as int] == cs0[active[c - 1] as int]);
    }
}

proof fn lemma_used_pairs_active(
    s: Stock,
    cs: Seq<Seq<Lit>>,
    q: int,
    active0: Seq<ClauseId>,
    active: Seq<ClauseId>,
    c: nat,
)
    requires
        c <= active0.len(),
        c <= active.len(),
        forall|b: int| 0 <= b < c ==> active0[b] == active[b],
    ensures
        used_pairs(s, cs, q, active, c) == used_pairs(s, cs, q, active0, c),
    decreases c,
{
    if c > 0 {
        lemma_used_pairs_active(s, cs, q, active0, active, (c - 1) as nat);
    }
}

proof fn lemma_used_steps_same(
    s: Stock,
    cs0: Seq<Seq<Lit>>,
    cs: Seq<Seq<Lit>>,
    active0: Seq<ClauseId>,
    active: Seq<ClauseId>,
    from: nat,
    to: nat,
)
    requires
        cs0.is_prefix_of(cs),
        to <= active0.len(),
        to <= active.len(),
        forall|b: int| 0 <= b < to ==> active0[b] == active[b],
        forall|b: int| 0 <= b < to ==> (#[trigger] active0[b]) < cs0.len(),
    ensures
        used_steps(s, cs, active, from, to) == used_steps(s, cs0, active0, from, to),
    decreases to,
{
    if to > from {
        let k = (to - 1) as nat;
        lemma_used_steps_same(s, cs0, cs, active0, active, from, k);
        let s1 = used_steps(s, cs0, active0, from, k);
        assert(active0[k as int] == active[k as int]);
        lemma_used_pairs_same(s1, cs0, cs, active0[k as int] as int, active0, k);
        lemma_used_pairs_active(s1, cs, active0[k as int] as int, active0, active, k);
    }
}

/// A pair whose resolvents do not fit blocks the processing of a clause.
proof fn lemma_blocked(
    before: &Saturation,
    after: &Saturation,
    popped: &Saturation,
    given_id: ClauseId,
    p: int,
)
    requires
        before.wf(),
        before.contents().is_prefix_of(after.contents()),
        keys(before.clauses()).is_prefix_of(keys(after.clauses())),
        popped.wf(),
        popped.clauses().len() <= before.clauses().len(),
        before.active@ == popped.active@,
        after.active@ == before.active@,
        0 <= p < before.active@.len(),
        given_id < before.clauses().len(),
        factors_done(before.contents(), keys(before.clauses()), given_id as int),
        forall|b: int|
            0 <= b < p ==> resolvents_done(
                before.contents(),
                keys(before.clauses()),
                given_id as int,
                #[trigger] before.active@[b] as int,
            ),
        before.stock() == used_pairs(
            popped.stock(),
            after.contents(),
            given_id as int,
            popped.active@,
            p as nat,
        ),
        resolvents_blocked(
            after.contents(),
            keys(after.clauses()),
            given_id as int,
            before.active@[p] as int,
            before.stock(),
            after.stock(),
            after.full(),
        ),
    ensures
        blocked(
            after.contents(),
            keys(after.clauses()),
            after.spec_active(),
            given_id as int,
            popped.stock(),
            after.stock(),
            after.full(),
        ),
{
    let cs0 = before.contents();
    let ks0 = keys(before.clauses());
    let cs = after.contents();
    let ks = keys(after.clauses());
    let g = given_id as int;
    lemma_factors_done_grows(cs0, ks0, cs, ks, g);
    assert forall|b: int| 0 <= b < p implies resolvents_done(
        cs,
        ks,
        g,
        #[trigger] after.active@[b] as int,
    ) by {
        assert(before.spec_active()[b] < before.clauses().len());
        assert(resolvents_done(cs0, ks0, g, before.active@[b] as int));
        lemma_resolvents_done_grows(cs0, ks0, cs, ks, g, before.active@[b] as int);
    }
    assert(resolved_up_to(cs, ks, after.spec_active(), g, p));
    assert(blocked_at(
        cs,
        ks,
        after.spec_active(),
        g,
        popped.stock(),
        after.stock(),
        after.full(),
        (p + 1) as nat,
    ));
}

/// The step that derives the empty clause ends the processing of a clause.
proof fn lemma_worked_before(
    before: &Saturation,
    after: &Saturation,
    popped: &Saturation,
    given_id: ClauseId,
    p: int,
    id: ClauseId,
)
    requires
        before.wf(),
        before.contents().is_prefix_of(after.contents()),
        keys(before.clauses()).is_prefix_of(keys(after.clauses())),
        popped.wf(),
        popped.clauses().len() <= before.clauses().len(),
        before.active@ == popped.active@,
        after.active@ == before.active@,
        0 <= p < before.active@.len(),
        given_id < before.clauses().len(),
        factors_done(before.contents(), keys(before.clauses()), given_id as int),
        forall|b: int|
            0 <= b < p ==> resolvents_done(
                before.contents(),
                keys(before.clauses()),
                given_id as int,
                #[trigger] before.active@[b] as int,
            ),
        ({
            let key = keys(after.clauses())[id as int]->Some_0;
            &&& key.given == given_id
            &&& key.partner == before.active@[p]
            &&& resolvents_done_before(
                after.contents(),
                keys(after.clauses()),
                given_id as int,
                before.active@[p] as int,
                (key.a, key.b),
            )
        }),
        after.stock() == used_pairs(
            popped.stock(),
            after.contents(),
            given_id as int,
            popped.active@,
            (p + 1) as nat,
        ),
    ensures
        worked_before(
            after.contents(),
            keys(after.clauses()),
            after.spec_active(),
            keys(after.clauses())[id as int]->Some_0,
            popped.stock(),
            after.stock(),
        ),
{
    let cs0 = before.contents();
    let ks0 = keys(before.clauses());
    let cs = after.contents();
    let ks = keys(after.clauses());
    let g = given_id as int;
    lemma_factors_done_grows(cs0, ks0, cs, ks, g);
    assert forall|b: int| 0 <= b < p implies resolvents_done(
        cs,
        ks,
        g,
        #[trigger] after.active@[b] as int,
    ) by {
        assert(before.spec_active()[b] < before.clauses().len());
        assert(resolvents_done(cs0, ks0, g, before.active@[b] as int));
        lemma_resolvents_done_grows(cs0, ks0, cs, ks, g, before.active@[b] as int);
    }
    assert(resolved_up_to(cs, ks, after.spec_active(), g, p));
}

proof fn lemma_contents_prefix(before: Seq<ClauseView>, after: Seq<ClauseView>, arena: &TermArena)
    requires
        before.is_prefix_of(after),
    ensures
        contents(before, arena).is_prefix_of(contents(after, arena)),
{
    let a = contents(before, arena);
    let b = contents(after, arena);
    assert forall|k: int| 0 <= k < a.len() implies a[k] == b[k] by {
        assert(before[k] == after[k]);
    }
    assert(a =~= b.subrange(0, a.len() as int));
}

/// What the processed clauses used stays the same when more is done.
proof fn lemma_steps_kept(first: &Saturation, start: &Saturation, done: &Saturation)
    requires
        start.wf(),
        start.contents().is_prefix_of(done.contents()),
        start.stock() == start.steps_from(first),
        start.active@.len() <= done.active@.len(),
        forall|b: int| 0 <= b < start.active@.len() ==> start.active@[b] == done.active@[b],
    ensures
        start.stock() == used_steps(
            first.stock(),
            done.contents(),
            done.spec_active(),
            first.spec_active().len(),
            start.spec_active().len(),
        ),
{
    assert forall|b: int| 0 <= b < start.active@.len() implies (#[trigger] start.active@[b])
        < start.contents().len() by {
        assert(start.spec_active()[b] < start.clauses().len());
    }
    lemma_used_steps_same(
        first.stock(),
        start.contents(),
        done.contents(),
        start.active@,
        done.active@,
        first.active@.len(),
        start.active@.len(),
    );
}

/// The new clauses were derived while one clause was processed.
spec fn made_by(start: &Saturation, done: &Saturation, given_id: ClauseId) -> bool {
    exists|stages: Seq<int>| #[trigger]
        given_made(
            done.contents(),
            keys(done.clauses()),
            start.clauses().len() as int,
            given_id as int,
            start.active@,
            start.stock(),
            stages,
        )
}

/// One more clause was taken from the waiting ones and processed in full.
proof fn lemma_stepped(
    first: &Saturation,
    start: &Saturation,
    popped: &Saturation,
    done: &Saturation,
    given_id: ClauseId,
)
    requires
        first.wf(),
        start.wf(),
        start.ran(first),
        start.stepped_from(first),
        start.passive@.len() > 0,
        given_id == start.passive@[0],
        popped.clauses() == start.clauses(),
        popped.passive@ == start.passive@.subrange(1, start.passive@.len() as int),
        popped.active@ == start.active@,
        popped.spec_arena() == start.spec_arena(),
        popped.spec_var_gen() == start.spec_var_gen(),
        done.ran(popped),
        done.active@ == start.active@.push(given_id),
        done.passive@ == popped.passive@ + id_range(
            popped.clauses().len() as int,
            done.clauses().len() as int,
        ),
        worked(
            done.contents(),
            keys(done.clauses()),
            done.spec_active(),
            start.active@.len() as int,
        ),
        done.stock() == used_pairs(
            popped.stock(),
            done.contents(),
            given_id as int,
            start.active@,
            start.active@.len(),
        ),
        made_by(start, done, given_id),
    ensures
        done.stepped_from(first),
{
    let f = first.clauses().len() as int;
    let n0 = start.clauses().len() as int;
    let n1 = done.clauses().len() as int;
    assert(first.active@.is_prefix_of(done.active@)) by {
        assert forall|i: int| 0 <= i < first.active@.len() implies first.active@[i]
            == done.active@[i] by {
            assert(first.active@[i] == start.active@[i]);
        }
        assert(first.active@ =~= done.active@.subrange(0, first.active@.len() as int));
    }
    assert(done.active@ + done.passive@ =~= (start.active@ + start.passive@) + id_range(n0, n1));
    assert(id_range(f, n0) + id_range(n0, n1) =~= id_range(f, n1));
    assert((first.active@ + (first.passive@ + id_range(f, n0))) + id_range(n0, n1)
        =~= first.active@ + (first.passive@ + (id_range(f, n0) + id_range(n0, n1))));
    start.lemma_growth(done);
    lemma_steps_kept(first, start, done);
    assert(start.spec_passive()[0] < start.clauses().len());
    lemma_places(first, start, done, given_id, choose|stages: Seq<int>| #[trigger]
        given_made(
            done.contents(),
            keys(done.clauses()),
            start.clauses().len() as int,
            given_id as int,
            start.active@,
            start.stock(),
            stages,
        ));
    lemma_used_pairs_active(
        start.stock(),
        done.contents(),
        given_id as int,
        start.active@,
        done.active@,
        start.active@.len(),
    );
    assert(done.active@[start.active@.len() as int] == given_id);
    assert forall|a: int| first.active@.len() <= a < done.active@.len() implies #[trigger] worked(
        done.contents(),
        keys(done.clauses()),
        done.active@,
        a,
    ) by {
        if a < start.active@.len() {
            assert forall|b: int| 0 <= b < start.active@.len() implies (
            #[trigger] start.active@[b]) < start.contents().len() by {
                assert(start.spec_active()[b] < start.clauses().len());
            }
            assert(worked(start.contents(), keys(start.clauses()), start.spec_active(), a));
            assert(start.active@ =~= done.active@.subrange(0, start.active@.len() as int));
            lemma_worked_grows(
                start.contents(),
                keys(start.clauses()),
                done.contents(),
                keys(done.clauses()),
                start.active@,
                done.active@,
                a,
            );
        } else {
            assert(done.active@[a] == given_id);
        }
    }
}

/// The first of the waiting clauses was taken and its processing broken off.
proof fn lemma_stopped(
    first: &Saturation,
    start: &Saturation,
    popped: &Saturation,
    done: &Saturation,
    given_id: ClauseId,
    m: int,
)
    requires
        first.wf(),
        start.wf(),
        start.ran(first),
        start.stepped_from(first),
        start.passive@.len() > 0,
        given_id == start.passive@[0],
        popped.clauses() == start.clauses(),
        popped.passive@ == start.passive@.subrange(1, start.passive@.len() as int),
        popped.active@ == start.active@,
        popped.spec_arena() == start.spec_arena(),
        popped.spec_var_gen() == start.spec_var_gen(),
        done.ran(popped),
        done.active@ == start.active@,
        popped.clauses().len() <= m,
        done.passive@ == popped.passive@ + id_range(popped.clauses().len() as int, m),
        made_by(start, done, given_id),
    ensures
        done.stopped_from(first, given_id, m),
        start.stock() == done.steps_from(first),
{
    let f = first.clauses().len() as int;
    let n0 = start.clauses().len() as int;
    assert(done.active@.push(given_id) + done.passive@ =~= (start.active@ + start.passive@)
        + id_range(n0, m));
    assert(id_range(f, n0) + id_range(n0, m) =~= id_range(f, m));
    assert((first.active@ + (first.passive@ + id_range(f, n0))) + id_range(n0, m)
        =~= first.active@ + (first.passive@ + (id_range(f, n0) + id_range(n0, m))));
    start.lemma_growth(done);
    lemma_steps_kept(first, start, done);
    assert(start.spec_passive()[0] < start.clauses().len());
    lemma_places(first, start, done, given_id, choose|stages: Seq<int>| #[trigger]
        given_made(
            done.contents(),
            keys(done.clauses()),
            start.clauses().len() as int,
            given_id as int,
            start.active@,
            start.stock(),
            stages,
        ));
    assert forall|a: int| first.active@.len() <= a < done.active@.len() implies #[trigger] worked(
        done.contents(),
        keys(done.clauses()),
        done.active@,
        a,
    ) by {
        assert forall|b: int| 0 <= b < start.active@.len() implies (
        #[trigger] start.active@[b]) < start.contents().len() by {
            assert(start.spec_active()[b] < start.clauses().len());
        }
        assert(worked(start.contents(), keys(start.clauses()), start.spec_active(), a));
        assert(start.active@ =~= done.active@.subrange(0, start.active@.len() as int));
        lemma_worked_grows(
            start.contents(),
            keys(start.clauses()),
            done.contents(),
            keys(done.clauses()),
            start.active@,
            done.active@,
            a,
        );
    }
}

/// Taking the first waiting clause starts its processing.
proof fn lemma_start(start: &Saturation, popped: &Saturation, g: int)
    requires
        start.wf(),
        start.on_track(),
        start.passive@.len() > 0,
        g == start.passive@[0],
        popped.arena == start.arena,
        popped.clause_store == start.clause_store,
        popped.active@ == start.active@,
        popped.passive@ == start.passive@.subrange(1, start.passive@.len() as int),
        start.clauses()[g].literals.len() > 0,
    ensures
        popped.at(g, -1),
{
    let a = start.active@.len() as int;
    let n = start.clauses().len() as int;
    start.clause_store.ids_are_positions();
    assert(start.passive@[0] == id_range(a, n)[0]);
    assert(g == a);
    assert(popped.passive@ =~= id_range(g + 1, n));
    let ks = keys(popped.clauses());
    assert(popped.contents() == start.contents());
    assert forall|k: int| 0 <= k < ks.len() && (#[trigger] ks[k]) is Some implies {
        let key = ks[k]->Some_0;
        key.given < g || (key.given == g && key.partner < -1)
    } by {}
    assert forall|q: int| 0 <= q < g implies #[trigger] processed(popped.contents(), ks, q) by {
        assert(processed(start.contents(), ks, q));
    }
    assert(popped.contents()[g].len() > 0);
}

/// Adding the clause to the processed ones ends its processing.
proof fn lemma_finish(
    stepped: &Saturation,
    done: &Saturation,
    given_id: ClauseId,
    tracked_run: bool,
)
    requires
        stepped.wf(),
        given_id < stepped.clauses().len(),
        tracked_run ==> stepped.at(given_id as int, stepped.active@.len() as int),
        done.arena == stepped.arena,
        done.clause_store == stepped.clause_store,
        done.var_gen == stepped.var_gen,
        done.active@ == stepped.active@.push(given_id),
        done.passive@ == stepped.passive@,
    ensures
        done.wf(),
        tracked_run ==> done.on_track(),
{
    assert forall|i: int| 0 <= i < done.spec_active().len() implies (
    #[trigger] done.spec_active()[i]) < done.clauses().len() by {
        if i < stepped.active@.len() {
            assert(stepped.spec_active()[i] < stepped.clauses().len());
        }
    }
    assert forall|i: int| 0 <= i < done.spec_passive().len() implies (
    #[trigger] done.spec_passive()[i]) < done.clauses().len() by {
        assert(stepped.spec_passive()[i] < stepped.clauses().len());
    }
    if tracked_run {
        let g = given_id as int;
        let cs = done.contents();
        let ks = keys(done.clauses());
        assert(stepped.active@ == id_range(0, g));
        assert(stepped.active@.len() == g);
        assert(done.active@ =~= id_range(0, g + 1));
        assert forall|q: int| 0 <= q < g + 1 implies #[trigger] processed(cs, ks, q) by {
            if q == g {
                assert(factors_done(cs, ks, g));
                assert forall|p: int| 0 <= p < g implies #[trigger] resolvents_done(
                    cs,
                    ks,
                    g,
                    p,
                ) by {}
            }
        }
        assert forall|k: int| 0 <= k < ks.len() && (#[trigger] ks[k]) is Some implies
            ks[k]->Some_0.given < g + 1 by {}
    }
}

/// A clause that follows by one inference from clauses that hold, holds.
pub proof fn one_inference_is_sound<D>(
    m: Model<D>,
    store: Seq<ClauseView>,
    arena: &TermArena,
    concl: Seq<LitIds>,
    info: InferenceView,
)
    requires
        justified(store, arena, concl, info),
        !(info.rule is Input),
        forall|j: int|
            0 <= j < info.parents.len() ==> holds(
                m,
                lits(store[#[trigger] info.parents[j] as int].literals, arena),
            ),
    ensures
        holds(m, lits(concl, arena)),
{
    match info.rule {
        RuleView::Resolution { left, right, .. } => {
            let ls1 = lits(store[left as int].literals, arena);
            let ls2 = lits(store[right as int].literals, arena);
            let (d1, d2, lo, hi) = choose|d1: Seq<Lit>, d2: Seq<Lit>, lo: int, hi: int| #[trigger]
                both_renamed(ls1, ls2, d1, d2, lo, hi) && resolution_entry(
                    left,
                    right,
                    d1,
                    d2,
                    arena,
                    concl,
                    info,
                );
            let mid = choose|mid: int| #[trigger]
                renamed_apart(ls1, d1, lo, mid) && renamed_apart(ls2, d2, mid, hi);
            assert(info.parents[0] == left && info.parents[1] == right);
            renamings_hold(m, ls1, d1, lo, mid);
            renamings_hold(m, ls2, d2, mid, hi);
            resolution_is_sound(m, left, right, d1, d2, arena, concl, info);
        },
        RuleView::Factoring { parent, .. } => {
            assert(info.parents[0] == parent);
            factoring_is_sound(
                m,
                parent,
                lits(store[parent as int].literals, arena),
                arena,
                concl,
                info,
            );
        },
        _ => {},
    }
}

impl Saturation {
    /// Every parent has a smaller id than its child.
    pub proof fn parents_come_first(&self)
        requires
            self.wf(),
        ensures
            parents_first(self.clauses()),
    {
        let store = self.clauses();
        assert forall|k: int, j: int|
            0 <= k < store.len() && 0 <= j < store[k].inference.parents.len() implies (
        #[trigger] store[k].inference.parents[j]) < k by {
            assert(justified(
                store.take(k),
                &self.spec_arena(),
                store[k].literals,
                store[k].inference,
            ));
        }
    }

    /// A clause and all clauses that it was derived from: parents before
    /// children, `from` last.
    pub fn proof_trace(&self, from: ClauseId) -> (r: Vec<ClauseId>)
        requires
            self.wf(),
            from < self.clauses().len(),
        ensures
            r@ == trace(self.clauses(), from),
    {
        proof {
            self.parents_come_first();
            let store = self.clauses();
            assert forall|x: usize, j: int|
                #![trigger store[x as int].inference.parents[j]]
                x < store.len() && 0 <= j
                    < store[x as int].inference.parents.len() implies store[x as int].inference.parents[j]
                < store.len() by {
                assert(store[x as int].inference.parents[j] < x);
            }
        }
        self.clause_store.proof_trace(from)
    }

    // -----------------------------------------------------------------------
    // Laws.
    // -----------------------------------------------------------------------
    /// Whether all input clauses hold in a structure.
    pub open spec fn input_holds<D>(&self, m: Model<D>) -> bool {
        forall|k: int|
            0 <= k < self.clauses().len() && (#[trigger] self.clauses()[k]).inference.rule is Input
                ==> holds(m, self.contents()[k])
    }

    /// Every clause of a search follows from its input clauses.
    pub proof fn clauses_follow_from_input<D>(&self, m: Model<D>, k: int)
        requires
            self.wf(),
            0 <= k < self.clauses().len(),
            self.input_holds(m),
        ensures
            holds(m, self.contents()[k]),
        decreases k,
    {
        let store = self.clauses();
        let arena = self.spec_arena();
        let before = store.take(k);
        assert(justified(before, &arena, store[k].literals, store[k].inference));
        if !(store[k].inference.rule is Input) {
            let parents = store[k].inference.parents;
            self.parents_come_first();
            assert forall|j: int| 0 <= j < parents.len() implies holds(
                m,
                lits(before[#[trigger] parents[j] as int].literals, &arena),
            ) by {
                let i = parents[j] as int;
                assert(store[k].inference.parents[j] < k);
                self.clauses_follow_from_input(m, i);
                assert(before[i] == store[i]);
                assert(self.contents()[i] == lits(store[i].literals, &arena));
            }
            one_inference_is_sound(m, before, &arena, store[k].literals, store[k].inference);
        }
    }

    /// Whether the input clauses in the proof of a clause hold in a structure.
    pub open spec fn premises_hold<D>(&self, id: ClauseId, m: Model<D>) -> bool {
        let t = trace(self.clauses(), id);
        forall|i: int|
            0 <= i < t.len() && self.clauses()[#[trigger] t[i] as int].inference.rule is Input
                ==> holds(m, self.contents()[t[i] as int])
    }

    /// Every clause in a proof follows from the input clauses in it.
    proof fn lemma_premises<D>(&self, id: ClauseId, m: Model<D>, i: int)
        requires
            self.wf(),
            id < self.clauses().len(),
            self.premises_hold(id, m),
            0 <= i < trace(self.clauses(), id).len(),
        ensures
            holds(m, self.contents()[trace(self.clauses(), id)[i] as int]),
        decreases i,
    {
        let store = self.clauses();
        let arena = self.spec_arena();
        let t = trace(store, id);
        self.proof_trace_is_a_proof(id);
        let k = t[i] as int;
        let before = store.take(k);
        assert(justified(before, &arena, store[k].literals, store[k].inference));
        if !(store[k].inference.rule is Input) {
            let parents = store[k].inference.parents;
            self.parents_come_first();
            assert forall|j: int| 0 <= j < parents.len() implies holds(
                m,
                lits(before[#[trigger] parents[j] as int].literals, &arena),
            ) by {
                let p = store[t[i] as int].inference.parents[j];
                assert(p < k);
                assert(t.take(i).contains(p));
                let at = choose|at: int| 0 <= at < t.take(i).len() && t.take(i)[at] == p;
                assert(t[at] == p);
                self.lemma_premises(id, m, at);
                assert(before[p as int] == store[p as int]);
                assert(self.contents()[p as int] == lits(store[p as int].literals, &arena));
            }
            one_inference_is_sound(m, before, &arena, store[k].literals, store[k].inference);
        }
    }

    /// A proof is right: where a search holds the empty clause, no structure
    /// whatever makes all input clauses in its proof true.
    pub proof fn refutation_is_sound<D>(&self, id: ClauseId, m: Model<D>)
        requires
            self.wf(),
            id < self.clauses().len(),
            self.clauses()[id as int].literals.len() == 0,
        ensures
            !self.premises_hold(id, m),
            !self.input_holds(m),
    {
        let t = trace(self.clauses(), id);
        self.proof_trace_is_a_proof(id);
        if self.premises_hold(id, m) {
            self.lemma_premises(id, m, t.len() - 1);
            assert(self.contents()[id as int] =~= Seq::<Lit>::empty());
            empty_clause_fails(m);
        }
        if self.input_holds(m) {
            assert(self.premises_hold(id, m));
        }
    }

    /// Whether the clause `k` is the resolvent of the clauses `q` and `p`,
    /// renamed apart, upon the literals `i` and `j`.
    pub open spec fn is_resolvent(&self, k: int, q: int, p: int, i: int, j: int) -> bool {
        exists|d1: Seq<Lit>, d2: Seq<Lit>, lo: int, hi: int| #[trigger]
            both_renamed(self.contents()[q], self.contents()[p], d1, d2, lo, hi)
                && self.contents()[k] == resolvent(d1, d2, i, j)
    }

    /// A clause with the key of a resolvent is that resolvent.
    proof fn lemma_resolvent_stored(&self, key: Key)
        requires
            self.wf(),
            keys(self.clauses()).contains(Some(key)),
            key.partner >= 0,
        ensures
            exists|k: int|
                0 <= k < self.clauses().len() && #[trigger] self.is_resolvent(
                    k,
                    key.given,
                    key.partner,
                    key.a,
                    key.b,
                ),
    {
        let store = self.clauses();
        let arena = self.spec_arena();
        let ks = keys(store);
        let k = choose|k: int| 0 <= k < ks.len() && ks[k] == Some(key);
        let before = store.take(k);
        assert(justified(before, &arena, store[k].literals, store[k].inference));
        let q = key.given;
        let p = key.partner;
        let (d1, d2, lo, hi) = choose|d1: Seq<Lit>, d2: Seq<Lit>, lo: int, hi: int| #[trigger]
            both_renamed(
                lits(before[q].literals, &arena),
                lits(before[p].literals, &arena),
                d1,
                d2,
                lo,
                hi,
            ) && resolution_entry(
                q as ClauseId,
                p as ClauseId,
                d1,
                d2,
                &arena,
                store[k].literals,
                store[k].inference,
            );
        lemma_resolution_resolves(
            q as ClauseId,
            p as ClauseId,
            d1,
            d2,
            &arena,
            store[k].literals,
            store[k].inference,
        );
        assert(both_renamed(self.contents()[q], self.contents()[p], d1, d2, lo, hi));
        assert(self.is_resolvent(k, q, p, key.a, key.b));
    }

    /// A clause with the key of a factor is that factor.
    proof fn lemma_factor_stored(&self, key: Key)
        requires
            self.wf(),
            keys(self.clauses()).contains(Some(key)),
            key.partner == -1,
        ensures
            self.contents().contains(factor_at(self.contents()[key.given], key.a, key.b)),
    {
        let store = self.clauses();
        let arena = self.spec_arena();
        let ks = keys(store);
        let k = choose|k: int| 0 <= k < ks.len() && ks[k] == Some(key);
        let before = store.take(k);
        assert(justified(before, &arena, store[k].literals, store[k].inference));
        let q = key.given;
        lemma_factoring_merges(
            q as ClauseId,
            lits(before[q].literals, &arena),
            &arena,
            store[k].literals,
            store[k].inference,
        );
        assert(self.contents()[k] == factor_at(self.contents()[q], key.a, key.b));
    }

    /// A saturated search holds no empty clause, every factor of a clause, and
    /// up to the names of variables every resolvent of a clause with an
    /// earlier one.
    pub proof fn saturation_is_closed(&self)
        requires
            self.wf(),
            self.on_track(),
            self.spec_passive().len() == 0,
        ensures
            forall|q: int|
                0 <= q < self.clauses().len() ==> (#[trigger] self.clauses()[q]).literals.len() > 0,
            forall|q: int, i: int, j: int|
                0 <= q < self.clauses().len() && 0 <= i < j < self.contents()[q].len()
                    && mergeable(#[trigger] self.contents()[q][i], #[trigger] self.contents()[q][j])
                    ==> self.contents().contains(factor_at(self.contents()[q], i, j)),
            forall|q: int, p: int, i: int, j: int|
                0 <= p < q < self.clauses().len() && 0 <= i < self.contents()[q].len() && 0 <= j
                    < self.contents()[p].len() && clash(
                    #[trigger] self.contents()[q][i],
                    #[trigger] self.contents()[p][j],
                ) ==> exists|k: int|
                    0 <= k < self.clauses().len() && #[trigger] self.is_resolvent(k, q, p, i, j),
    {
        let n = self.clauses().len() as int;
        let g = self.spec_active().len() as int;
        let cs = self.contents();
        let ks = keys(self.clauses());
        assert(id_range(g, n).len() == n - g);
        assert forall|q: int| 0 <= q < n implies (#[trigger] self.clauses()[q]).literals.len()
            > 0 by {
            assert(processed(cs, ks, q));
            assert(cs[q].len() > 0);
        }
        assert forall|q: int, i: int, j: int|
            0 <= q < n && 0 <= i < j < cs[q].len() && mergeable(
                #[trigger] cs[q][i],
                #[trigger] cs[q][j],
            ) implies cs.contains(factor_at(cs[q], i, j)) by {
            assert(processed(cs, ks, q));
            self.lemma_factor_stored(Key { given: q, partner: -1, a: i, b: j });
        }
        assert forall|q: int, p: int, i: int, j: int|
            0 <= p < q < n && 0 <= i < cs[q].len() && 0 <= j < cs[p].len() && clash(
                #[trigger] cs[q][i],
                #[trigger] cs[p][j],
            ) implies exists|k: int|
            0 <= k < n && #[trigger] self.is_resolvent(k, q, p, i, j) by {
            assert(processed(cs, ks, q));
            assert(resolvents_done(cs, ks, q, p));
            self.lemma_resolvent_stored(Key { given: q, partner: p, a: i, b: j });
        }
    }

    /// The clauses of a search form a valid proof graph.
    pub proof fn search_is_a_valid_dag(&self)
        requires
            self.wf(),
        ensures
            distinct(self.clauses()),
            valid(self.clauses()),
    {
        let store = self.clauses();
        self.parents_come_first();
        self.spec_store().ids_are_positions();
        assert forall|i: int| 0 <= i < store.len() implies (implied_parents(
            (#[trigger] store[i]).inference.rule,
        ) matches Some(ps) ==> store[i].inference.parents.to_set() == ps.to_set()) by {
            assert(justified(
                store.take(i),
                &self.spec_arena(),
                store[i].literals,
                store[i].inference,
            ));
            if store[i].inference.rule is Input {
                assert(store[i].inference.parents =~= Seq::empty());
            }
        }
        earlier_parents_are_valid(store);
    }

    /// A search that holds the empty clause has a certificate.
    pub proof fn proved_search_has_a_certificate(&self, id: ClauseId)
        requires
            self.wf(),
            id < self.clauses().len(),
            self.clauses()[id as int].literals.len() == 0,
        ensures
            valid(self.clauses()),
            first_empty(self.clauses(), 0) is Some,
    {
        self.search_is_a_valid_dag();
        lemma_first_empty(self.clauses(), 0);
    }

    /// The clauses of a search mention only terms of its arena.
    pub proof fn search_mentions_its_terms(&self)
        requires
            self.wf(),
        ensures
            mentions_valid(self.clauses(), &self.spec_arena()),
    {
        let store = self.clauses();
        let arena = self.spec_arena();
        assert forall|t: TermId| #[trigger] mentioned(store, t) implies arena.valid(t) by {
            let i = choose|i: int| 0 <= i < store.len() && mentions(#[trigger] store[i], t);
            let c = store[i];
            assert(lits_valid(c.literals, &arena));
            assert(justified(store.take(i), &arena, c.literals, c.inference));
            if exists|l: int, a: int|
                0 <= l < c.literals.len() && 0 <= a < c.literals[l].args.len()
                    && #[trigger] c.literals[l].args[a] == t {
                let (l, a) = choose|l: int, a: int|
                    0 <= l < c.literals.len() && 0 <= a < c.literals[l].args.len()
                        && #[trigger] c.literals[l].args[a] == t;
                assert(c.literals[l].valid(&arena));
                assert(arena.valid(c.literals[l].args[a]));
            } else {
                let m = unifier_of(c.inference.rule)->Some_0;
                let v = choose|v: VarId| #[trigger] m.contains_key(v) && m[v] == t;
                assert(bound_valid(m, &arena));
                assert(arena.valid(m[v]));
            }
        }
    }

    /// A proof trace is a proof: it ends with the clause asked for, and every
    /// clause in it is an input clause or follows by one inference from
    /// parents that come before it.
    pub proof fn proof_trace_is_a_proof(&self, from: ClauseId)
        requires
            self.wf(),
            from < self.clauses().len(),
        ensures
            ({
                let store = self.clauses();
                let t = trace(store, from);
                &&& t.len() > 0
                &&& t.last() == from
                &&& t.no_duplicates()
                &&& forall|i: int|
                    0 <= i < t.len() ==> (#[trigger] t[i]) < store.len() && justified(
                        store.take(t[i] as int),
                        &self.spec_arena(),
                        store[t[i] as int].literals,
                        store[t[i] as int].inference,
                    )
                &&& forall|i: int, j: int|
                    #![trigger store[t[i] as int].inference.parents[j]]
                    0 <= i < t.len() && 0 <= j < store[t[i] as int].inference.parents.len()
                        ==> t.take(i).contains(store[t[i] as int].inference.parents[j])
            }),
    {
        let store = self.clauses();
        let t = trace(store, from);
        self.parents_come_first();
        self.spec_store().ids_are_positions();
        assert(traceable(store, from)) by {
            assert forall|x: usize, j: int|
                #![trigger store[x as int].inference.parents[j]]
                x < store.len() && 0 <= j
                    < store[x as int].inference.parents.len() implies store[x as int].inference.parents[j]
                < store.len() by {
                assert(store[x as int].inference.parents[j] < x);
            }
        }
        smaller_parents_make_no_cycle(store);
        trace_is_a_derivation(store, from);
        assert forall|i: int| 0 <= i < t.len() implies (#[trigger] t[i]) < store.len()
            && justified(
            store.take(t[i] as int),
            &self.spec_arena(),
            store[t[i] as int].literals,
            store[t[i] as int].inference,
        ) by {
            assert(lits_valid(store[t[i] as int].literals, &self.spec_arena()));
        }
    }

    /// A run that processes distinct clauses makes no inference twice.
    pub proof fn no_inference_is_made_twice(
        &self,
        before: &Saturation,
        order: Seq<ClauseId>,
        k: int,
        l: int,
    )
        requires
            self.made_since(before, order),
            order.no_duplicates(),
            before.clauses().len() <= k < l < self.clauses().len(),
        ensures
            keys(self.clauses())[k] is Some,
            keys(self.clauses())[l] is Some,
            keys(self.clauses())[k] != keys(self.clauses())[l],
    {
        let cs = self.contents();
        let ks = keys(self.clauses());
        let from = before.spec_active().len() as int;
        let n = before.clauses().len() as int;
        let places = choose|places: Seq<Place>| #[trigger]
            made_in_order(cs, ks, order, from, before.stock(), n, places);
        let x = places[k - n];
        let y = places[l - n];
        assert(made_at(cs, ks, order, from, before.stock(), n + (k - n), x));
        assert(made_at(cs, ks, order, from, before.stock(), n + (l - n), y));
        assert(place_before(x, y));
    }

    /// Between steps every clause is either processed or waiting.
    pub proof fn clauses_are_active_or_passive(&self)
        requires
            self.on_track(),
        ensures
            self.spec_active().len() + self.spec_passive().len() == self.clauses().len(),
    {
    }
}

impl Saturation {
    /// Whether the clauses that were read, if any, can be numbered and weighed.
    pub open spec fn room_for(&self, out: Result<Seq<Seq<Lit>>, ErrorView>) -> bool {
        out matches Ok(cs) ==> {
            &&& self.clauses().len() + cs.len() <= u32::MAX
            &&& forall|i: int|
                0 <= i < cs.len() ==> weights(#[trigger] cs[i], cs[i].len()) <= u32::MAX
        }
    }

    /// A text that is short enough can be read in both formats, and its
    /// clauses added.
    pub proof fn short_problems_can_be_added(&self, text: Seq<char>, symbols: &SymbolTable)
        requires
            self.wf(),
            symbols@.len() + text.len() <= u32::MAX,
            self.clauses().len() + text.len() <= u32::MAX,
            self.spec_arena().data().len() + text.len() <= u32::MAX,
            self.spec_arena().pool().len() + text.len() <= u32::MAX,
        ensures
            ({
                let (out, kn) = problem_of(text, known(symbols, &self.spec_arena()));
                kn.in_range() && self.room_for(out)
            }),
            ({
                let (out, kn) = tptp_problem_of(text, known(symbols, &self.spec_arena()));
                kn.in_range() && self.room_for(out)
            }),
    {
        let kn = known(symbols, &self.spec_arena());
        self.spec_arena().lemma_forest();
        short_texts_can_be_read(text, kn);
        short_tptp_texts_can_be_read(text, kn);
        problem_is_no_larger_than_its_text(text, kn);
        tptp_problem_is_no_larger_than_its_text(text, kn);
    }

    /// The clauses `cs` were added to those of `before` as input, in order,
    /// and nothing else changed.
    pub open spec fn added(&self, before: &Saturation, cs: Seq<Seq<Lit>>) -> bool {
        let n = before.clauses().len() as int;
        &&& self.wf()
        &&& self.spec_arena().extends(&before.spec_arena())
        &&& before.clauses().is_prefix_of(self.clauses())
        &&& self.contents() == before.contents() + cs
        &&& forall|k: int|
            n <= k < self.clauses().len() ==> (#[trigger] self.clauses()[k]).inference.rule is Input
        &&& self.spec_var_gen() == before.spec_var_gen()
        &&& self.spec_active() == before.spec_active()
        &&& self.spec_passive() == before.spec_passive() + id_range(n, n + cs.len())
        &&& before.on_track() ==> self.on_track()
    }

    fn add_clauses(&mut self, cs: Vec<Vec<Literal>>) -> (r: Vec<ClauseId>)
        requires
            old(self).wf(),
            clauses_valid(cs@, &old(self).spec_arena()),
            old(self).clauses().len() + cs@.len() <= u32::MAX,
            forall|i: int|
                0 <= i < cs@.len() ==> weights(
                    #[trigger] clause_lits(cs@, &old(self).spec_arena())[i],
                    cs@[i]@.len(),
                ) <= u32::MAX,
        ensures
            final(self).added(old(self), clause_lits(cs@, &old(self).spec_arena())),
            final(self).spec_arena() == old(self).spec_arena(),
            r@ == id_range(
                old(self).clauses().len() as int,
                (old(self).clauses().len() + cs@.len()) as int,
            ),
    {
        let ghost all = cs@;
        let ghost arena = self.spec_arena();
        let ghost parsed = clause_lits(all, &arena);
        let ghost n = self.clauses().len() as int;
        let mut ids: Vec<ClauseId> = Vec::new();
        proof {
            assert(self.contents() + parsed.take(0) =~= self.contents());
            assert(self.spec_passive() + id_range(n, n) =~= self.spec_passive());
            assert(ids@ =~= id_range(n, n));
        }
        for c in it: cs
            invariant
                it.seq() == all,
                old(self).wf(),
                n == old(self).clauses().len(),
                arena == old(self).spec_arena(),
                self.spec_arena() == arena,
                parsed == clause_lits(all, &arena),
                clauses_valid(all, &arena),
                n + all.len() <= u32::MAX,
                forall|i: int|
                    0 <= i < all.len() ==> weights(#[trigger] parsed[i], all[i]@.len())
                        <= u32::MAX,
                self.added(old(self), parsed.take(it.index())),
                ids@ == id_range(n, n + it.index()),
                self.clauses().len() == n + it.index(),
        {
            let ghost before = *self;
            let ghost i = it.index();
            proof {
                assert(c == all[i]);
                assert(lits_valid(views(all[i]@), &arena));
                assert(parsed[i] == lits(views(all[i]@), &arena));
            }
            let id: ClauseId = self.add_input_clause(c);
            ids.push(id);
            proof {
                let a = before.contents();
                let b = self.contents();
                assert(b =~= a.push(parsed[i])) by {
                    assert forall|k: int| 0 <= k < a.len() implies a[k] == b[k] by {
                        assert(before.clauses()[k] == self.clauses()[k]);
                    }
                }
                assert(parsed.take(i + 1) =~= parsed.take(i).push(parsed[i]));
                assert(b =~= old(self).contents() + parsed.take(i + 1));
                assert(id_range(n, n + i + 1) =~= id_range(n, n + i).push(id));
                assert(self.spec_passive() =~= old(self).spec_passive() + id_range(
                    n,
                    n + i + 1,
                ));
                assert(ids@ =~= id_range(n, n + i + 1));
                assert(old(self).clauses().is_prefix_of(self.clauses())) by {
                    assert forall|k: int| 0 <= k < n implies old(self).clauses()[k]
                        == self.clauses()[k] by {
                        assert(old(self).clauses()[k] == before.clauses()[k]);
                        assert(before.clauses()[k] == self.clauses()[k]);
                    }
                    assert(old(self).clauses() =~= self.clauses().subrange(0, n));
                }
                assert forall|k: int| n <= k < self.clauses().len() implies (
                #[trigger] self.clauses()[k]).inference.rule is Input by {
                    if k < before.clauses().len() {
                        assert(before.clauses()[k] == self.clauses()[k]);
                    }
                }
            }
        }
        assert(parsed.take(all.len() as int) =~= parsed);
        ids
    }

    /// Reads a problem in the format of parenthesised lists and adds its
    /// clauses as input. On an error no clause is added.
    pub fn add_parsed_problem(&mut self, input: &str, symbols: &mut SymbolTable) -> (r: Result<
        Vec<ClauseId>,
        ParseError,
    >)
        requires
            old(self).wf(),
            old(symbols).wf(),
            problem_of(input@, known(old(symbols), &old(self).spec_arena())).1.in_range(),
            old(self).room_for(
                problem_of(input@, known(old(symbols), &old(self).spec_arena())).0,
            ),
            input@.len() < usize::MAX,
        ensures
            final(symbols).wf(),
            ({
                let (out, kn) = problem_of(
                    input@,
                    known(old(symbols), &old(self).spec_arena()),
                );
                &&& known(final(symbols), &final(self).spec_arena()) == kn
                &&& read_into(old(self), final(self), out, r)
            }),
    {
        let ghost start = *self;
        match parse_problem(input, &mut self.arena, symbols) {
            Err(e) => {
                proof {
                    self.growing_the_arena_keeps_the_search(&start);
                    self.lemma_nothing_added(&start);
                }
                Err(e)
            },
            Ok(cs) => {
                let ghost mid = *self;
                proof {
                    self.growing_the_arena_keeps_the_search(&start);
                    lemma_weights_fit(cs@, &self.spec_arena());
                }
                let ids = self.add_clauses(cs);
                proof {
                    self.lemma_added_since(&mid, &start, clause_lits(cs@, &mid.spec_arena()));
                }
                Ok(ids)
            },
        }
    }

    /// Reads a problem in clause normal form of TPTP and adds its clauses as
    /// input. On an error no clause is added.
    pub fn add_parsed_tptp_problem(&mut self, input: &str, symbols: &mut SymbolTable) -> (r: Result<
        Vec<ClauseId>,
        ParseError,
    >)
        requires
            old(self).wf(),
            old(symbols).wf(),
            tptp_problem_of(input@, known(old(symbols), &old(self).spec_arena())).1.in_range(),
            old(self).room_for(
                tptp_problem_of(input@, known(old(symbols), &old(self).spec_arena())).0,
            ),
            input@.len() < usize::MAX,
        ensures
            final(symbols).wf(),
            ({
                let (out, kn) = tptp_problem_of(
                    input@,
                    known(old(symbols), &old(self).spec_arena()),
                );
                &&& known(final(symbols), &final(self).spec_arena()) == kn
                &&& read_into(old(self), final(self), out, r)
            }),
    {
        let ghost start = *self;
        match parse_tptp_problem(input, &mut self.arena, symbols) {
            Err(e) => {
                proof {
                    self.growing_the_arena_keeps_the_search(&start);
                    self.lemma_nothing_added(&start);
                }
                Err(e)
            },
            Ok(cs) => {
                let ghost mid = *self;
                proof {
                    self.growing_the_arena_keeps_the_search(&start);
                    lemma_weights_fit(cs@, &self.spec_arena());
                }
                let ids = self.add_clauses(cs);
                proof {
                    self.lemma_added_since(&mid, &start, clause_lits(cs@, &mid.spec_arena()));
                }
                Ok(ids)
            },
        }
    }

    proof fn lemma_nothing_added(&self, start: &Saturation)
        requires
            start.wf(),
            self.wf(),
            self.same_but_arena(start),
            self.spec_arena().extends(&start.spec_arena()),
            self.contents() == start.contents(),
            start.on_track() ==> self.on_track(),
        ensures
            self.added(start, Seq::empty()),
    {
        let n = start.clauses().len() as int;
        assert(self.contents() =~= start.contents() + Seq::<Seq<Lit>>::empty());
        assert(self.spec_passive() =~= start.spec_passive() + id_range(n, n));
        assert(start.clauses() =~= self.clauses().subrange(0, n));
    }

    proof fn lemma_added_since(&self, mid: &Saturation, start: &Saturation, cs: Seq<Seq<Lit>>)
        requires
            start.wf(),
            mid.same_but_arena(start),
            mid.spec_arena().extends(&start.spec_arena()),
            mid.contents() == start.contents(),
            start.on_track() ==> mid.on_track(),
            self.added(mid, cs),
            self.spec_arena() == mid.spec_arena(),
        ensures
            self.added(start, cs),
    {
    }
}

/// What reading a problem does to a search, given what the text holds.
pub open spec fn read_into(
    before: &Saturation,
    after: &Saturation,
    out: Result<Seq<Seq<Lit>>, ErrorView>,
    r: Result<Vec<ClauseId>, ParseError>,
) -> bool {
    match (out, r) {
        (Ok(cs), Ok(ids)) => {
            &&& after.added(before, cs)
            &&& ids@ == id_range(
                before.clauses().len() as int,
                (before.clauses().len() + cs.len()) as int,
            )
        },
        (Err(e), Err(er)) => er@ == e && after.added(before, Seq::empty()),
        _ => false,
    }
}

proof fn lemma_weights_fit(cs: Seq<Vec<Literal>>, arena: &TermArena)
    requires
        forall|i: int|
            0 <= i < cs.len() ==> weights(
                #[trigger] clause_lits(cs, arena)[i],
                clause_lits(cs, arena)[i].len(),
            ) <= u32::MAX,
    ensures
        forall|i: int|
            0 <= i < cs.len() ==> weights(#[trigger] clause_lits(cs, arena)[i], cs[i]@.len())
                <= u32::MAX,
{
    assert forall|i: int| 0 <= i < cs.len() implies weights(
        #[trigger] clause_lits(cs, arena)[i],
        cs[i]@.len(),
    ) <= u32::MAX by {
        assert(clause_lits(cs, arena)[i].len() == cs[i]@.len());
    }
}

impl Default for Saturation {
    fn default() -> (r: Self)
        ensures
            r.wf(),
            r.on_track(),
            r.clauses().len() == 0,
            r.spec_arena().data().len() == 0,
            r.spec_arena().pool().len() == 0,
            r.spec_var_gen().next() == 0,
            r.spec_active().len() == 0,
            r.spec_passive().len() == 0,
    {
        Saturation::new()
    }
}

} // verus!
