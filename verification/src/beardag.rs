//! Writes a proof certificate as `.beardag` text: the clauses of a refutation
//! together with the symbols and terms that they mention.
use crate::clause::{Clause, ClauseId, ClauseView, InferenceRule, LitIds, RuleView};
use crate::proof_dag::{
    clause_views, collect_used_term_ids, lemma_used_argument, lemma_used_valid, mentioned, mentions,
    mentions_valid, subterm, unifier_of, used_term,
};
use crate::term::{Node, SymbolId, TermArena, TermData, TermId, VarId};
use crate::text::{
    ascending, chars_of, decimal, insert_sorted, join, lemma_list_below, lemma_listed, list_all,
    list_below,
    numbers, push_decimal, push_numbers, white_space,
};
use crate::unify::{lists, Substitution};
use std::collections::{BTreeSet, HashSet};
use vstd::prelude::*;
use vstd::std_specs::iter::IteratorSpec;

verus! {

broadcast use {
    vstd::std_specs::hash::group_hash_axioms,
    vstd::std_specs::btree::group_btree_axioms,
    vstd::laws_cmp::group_laws_cmp,
};

/// Why a list of clauses cannot be written as a certificate.
#[derive(Debug)]
pub enum BeardagError {
    /// There are no clauses.
    EmptyCertificate,
    /// The last clause is not empty.
    NotBottomTerminated { last_id: ClauseId },
}

/// The text of an error.
pub open spec fn beardag_error_text(e: BeardagError) -> Seq<char> {
    match e {
        BeardagError::EmptyCertificate => "certificate is empty nothing to emit"@,
        BeardagError::NotBottomTerminated { last_id } => "certificate's last clause ("@ + decimal(
            last_id as nat,
        )
            + ") is not  ⊥ — pass the output of ProofDag::certificate() directly, don't reorder it"@,
    }
}

impl BeardagError {
    /// The error as text.
    pub fn describe(&self) -> (r: String)
        ensures
            r@ == beardag_error_text(*self),
    {
        let mut out = String::new();
        match self {
            BeardagError::EmptyCertificate => {
                out.append("certificate is empty nothing to emit");
            },
            BeardagError::NotBottomTerminated { last_id } => {
                out.append("certificate's last clause (");
                push_decimal(&mut out, *last_id as u64);
                out.append(
                    ") is not  ⊥ — pass the output of ProofDag::certificate() directly, don't reorder it",
                );
            },
        }
        assert(out@ =~= beardag_error_text(*self));
        out
    }
}

/// Whether a character would end a bare atom.
pub open spec fn delimits(c: char) -> bool {
    white_space(c) || c == '(' || c == ')' || c == '"' || c == ';'
}

/// The text with a backslash before every backslash and quote.
pub open spec fn escaped(s: Seq<char>) -> Seq<char>
    decreases s.len(),
{
    if s.len() == 0 {
        Seq::empty()
    } else if s.last() == '\\' || s.last() == '"' {
        escaped(s.drop_last()).push('\\').push(s.last())
    } else {
        escaped(s.drop_last()).push(s.last())
    }
}

/// A name as an atom: bare where it can be, else in quotes.
pub open spec fn atom_text(s: Seq<char>) -> Seq<char> {
    if s.len() == 0 || exists|i: int| 0 <= i < s.len() && delimits(#[trigger] s[i]) {
        "\""@ + escaped(s) + "\""@
    } else {
        s
    }
}

/// Appends a name as an atom.
fn push_atom(out: &mut String, name: &str)
    ensures
        final(out)@ == old(out)@ + atom_text(name@),
{
    let chars: Vec<char> = chars_of(name);
    let mut quote: bool = chars.len() == 0;
    let mut i: usize = 0;
    while i < chars.len()
        invariant
            i <= chars@.len(),
            quote == (chars@.len() == 0 || exists|k: int|
                0 <= k < i && delimits(#[trigger] chars@[k])),
        decreases chars@.len() - i,
    {
        let c: char = chars[i];
        if c.is_whitespace() || c == '(' || c == ')' || c == '"' || c == ';' {
            assert(delimits(chars@[i as int]));
            quote = true;
        }
        i += 1;
    }
    if !quote {
        out.append(name);
        return;
    }
    out.append("\"");
    let ghost head = out@;
    let mut j: usize = 0;
    assert(chars@.take(0) =~= Seq::<char>::empty());
    assert(out@ =~= head + escaped(chars@.take(0)));
    while j < chars.len()
        invariant
            j <= chars@.len(),
            out@ == head + escaped(chars@.take(j as int)),
        decreases chars@.len() - j,
    {
        let c: char = chars[j];
        assert(chars@.take(j + 1).drop_last() =~= chars@.take(j as int));
        assert(chars@.take(j + 1).last() == c);
        if c == '\\' || c == '"' {
            out.push('\\');
        }
        out.push(c);
        assert(out@ =~= head + escaped(chars@.take(j + 1)));
        j += 1;
    }
    assert(chars@.take(j as int) =~= chars@);
    out.append("\"");
    assert(out@ =~= old(out)@ + atom_text(name@));
}

/// A name as an atom of the format: bare, or in quotes where it is empty or
/// has a character that would end it.
pub fn sexp_atom(s: &str) -> (r: String)
    ensures
        r@ == atom_text(s@),
{
    let mut out = String::new();
    push_atom(&mut out, s);
    assert(out@ =~= atom_text(s@));
    out
}

/// Whether a symbol is the predicate of a literal of the clauses.
pub open spec fn is_predicate(cs: Seq<ClauseView>, s: SymbolId) -> bool {
    exists|i: int, l: int|
        0 <= i < cs.len() && 0 <= l < cs[i].literals.len()
            && (#[trigger] cs[i].literals[l]).predicate == s
}

/// Whether a symbol is the head of one of the terms.
pub open spec fn is_head(terms: Set<TermId>, arena: &TermArena, s: SymbolId) -> bool {
    exists|t: TermId| #[trigger]
        terms.contains(t) && arena.node(t) is App && arena.node(t)->App_0 == s
}

/// Every symbol that the clauses and terms use: the predicates of the literals
/// and the heads of the terms.
pub fn used_symbol_ids(
    clauses: &[Clause],
    used_terms: &BTreeSet<TermId>,
    arena: &TermArena,
) -> (r: BTreeSet<SymbolId>)
    requires
        forall|t: TermId| #[trigger] used_terms@.contains(t) ==> arena.valid(t),
    ensures
        forall|s: SymbolId| #[trigger]
            r@.contains(s) <==> is_predicate(clause_views(clauses@), s) || is_head(
                used_terms@,
                arena,
                s,
            ),
{
    let ghost cs = clause_views(clauses@);
    let mut syms: BTreeSet<SymbolId> = BTreeSet::new();
    let mut i: usize = 0;
    while i < clauses.len()
        invariant
            cs == clause_views(clauses@),
            i <= clauses@.len(),
            forall|s: SymbolId| #[trigger]
                syms@.contains(s) <==> exists|k: int, l: int|
                    0 <= k < i && 0 <= l < cs[k].literals.len() && (
                    #[trigger] cs[k].literals[l]).predicate == s,
        decreases clauses@.len() - i,
    {
        let ghost first = syms@;
        let c = &clauses[i];
        let mut l: usize = 0;
        while l < c.literals.len()
            invariant
                i < clauses@.len(),
                cs == clause_views(clauses@),
                c@ == cs[i as int],
                l <= c.literals@.len(),
                forall|s: SymbolId| #[trigger]
                    syms@.contains(s) <==> first.contains(s) || exists|m: int|
                        0 <= m < l && (#[trigger] cs[i as int].literals[m]).predicate == s,
            decreases c.literals@.len() - l,
        {
            let ghost before = syms@;
            assert(cs[i as int].literals[l as int] == c.literals@[l as int]@);
            syms.insert(c.literals[l].predicate);
            proof {
                assert forall|s: SymbolId| #[trigger] syms@.contains(s) <==> first.contains(s)
                    || exists|m: int|
                    0 <= m < l + 1 && (#[trigger] cs[i as int].literals[m]).predicate == s by {
                    if s == cs[i as int].literals[l as int].predicate {
                        assert(cs[i as int].literals[l as int].predicate == s);
                    }
                    if before.contains(s) && !first.contains(s) {
                        let m = choose|m: int|
                            0 <= m < l && (#[trigger] cs[i as int].literals[m]).predicate == s;
                        assert(cs[i as int].literals[m].predicate == s);
                    }
                }
            }
            l += 1;
        }
        proof {
            assert forall|s: SymbolId| #[trigger] syms@.contains(s) <==> exists|k: int, l: int|
                0 <= k < i + 1 && 0 <= l < cs[k].literals.len() && (
                #[trigger] cs[k].literals[l]).predicate == s by {
                if first.contains(s) {
                    let (k, l) = choose|k: int, l: int|
                        0 <= k < i && 0 <= l < cs[k].literals.len() && (
                        #[trigger] cs[k].literals[l]).predicate == s;
                    assert(cs[k].literals[l].predicate == s);
                }
            }
        }
        i += 1;
    }
    let ghost preds = syms@;
    proof {
        lemma_listed(
            vstd::std_specs::btree::spec_btree_keys_iter(used_terms).remaining(),
            used_terms@,
        );
        let ids = vstd::std_specs::btree::spec_btree_keys_iter(used_terms).remaining();
        assert forall|s: SymbolId| #[trigger] is_head(used_terms@, arena, s) <==> exists|k: int|
            0 <= k < ids.len() && arena.node(*#[trigger] ids[k]) is App && arena.node(
                *ids[k],
            )->App_0 == s by {
            if is_head(used_terms@, arena, s) {
                let t = choose|t: TermId| #[trigger]
                    used_terms@.contains(t) && arena.node(t) is App && arena.node(t)->App_0 == s;
                let k = choose|k: int| 0 <= k < ids.len() && *#[trigger] ids[k] == t;
                assert(arena.node(*ids[k]) is App);
            }
            if exists|k: int|
                0 <= k < ids.len() && arena.node(*#[trigger] ids[k]) is App && arena.node(
                    *ids[k],
                )->App_0 == s {
                let k = choose|k: int|
                    0 <= k < ids.len() && arena.node(*#[trigger] ids[k]) is App && arena.node(
                        *ids[k],
                    )->App_0 == s;
                assert(used_terms@.contains(*ids[k]));
            }
        }
    }
    for t in it: used_terms.iter()
        invariant
            forall|t: TermId| #[trigger] used_terms@.contains(t) ==> arena.valid(t),
            forall|t: TermId| #[trigger]
                used_terms@.contains(t) <==> exists|k: int|
                    0 <= k < it.seq().len() && *#[trigger] it.seq()[k] == t,
            forall|s: SymbolId| #[trigger]
                is_head(used_terms@, arena, s) <==> exists|k: int|
                    0 <= k < it.seq().len() && arena.node(*#[trigger] it.seq()[k]) is App
                        && arena.node(*it.seq()[k])->App_0 == s,
            forall|s: SymbolId| #[trigger]
                syms@.contains(s) <==> preds.contains(s) || exists|k: int|
                    0 <= k < it.index() && arena.node(*#[trigger] it.seq()[k]) is App
                        && arena.node(*it.seq()[k])->App_0 == s,
    {
        let ghost before = syms@;
        assert(used_terms@.contains(*t)) by {
            assert(*it.seq()[it.index()] == *t);
        }
        if let TermData::App(sym, _, _) = arena.get(*t) {
            syms.insert(sym);
        }
        proof {
            assert forall|s: SymbolId| #[trigger] syms@.contains(s) <==> preds.contains(s)
                || exists|k: int|
                0 <= k < it.index() + 1 && arena.node(*#[trigger] it.seq()[k]) is App
                    && arena.node(*it.seq()[k])->App_0 == s by {
                assert(*it.seq()[it.index()] == *t);
                if before.contains(s) && !preds.contains(s) {
                    let k = choose|k: int|
                        0 <= k < it.index() && arena.node(*#[trigger] it.seq()[k]) is App
                            && arena.node(*it.seq()[k])->App_0 == s;
                    assert(arena.node(*it.seq()[k]) is App);
                }
            }
        }
    }
    syms
}

/// The text of one binding.
pub open spec fn binding_text(m: Map<VarId, TermId>, v: VarId) -> Seq<char> {
    "("@ + decimal(v as nat) + " "@ + decimal(m[v] as nat) + ")"@
}

/// The text of a substitution: its bindings in ascending order of the
/// variables.
pub open spec fn subst_text(m: Map<VarId, TermId>) -> Seq<char> {
    let vars = list_all(m.dom());
    "(subst "@ + join(Seq::new(vars.len(), |i: int| binding_text(m, vars[i])), " "@) + ")"@
}

/// The text of a rule.
pub open spec fn rule_text(rule: RuleView) -> Seq<char> {
    match rule {
        RuleView::Input => "(input)"@,
        RuleView::Resolution { left, left_lit, right, right_lit, unifier } => "(resolution (left "@
            + decimal(left as nat) + ") (left_lit "@ + decimal(left_lit as nat) + ") (right "@
            + decimal(right as nat) + ") (right_lit "@ + decimal(right_lit as nat) + ") "@
            + subst_text(unifier) + ")"@,
        RuleView::Factoring { parent, lit_a, lit_b, unifier } => "(factoring (parent "@ + decimal(
            parent as nat,
        ) + ") (lit_a "@ + decimal(lit_a as nat) + ") (lit_b "@ + decimal(lit_b as nat) + ") "@
            + subst_text(unifier) + ")"@,
        RuleView::Superposition => "(superposition) ; TODO(v0.2)"@,
        RuleView::EqualityResolution => "(equality-resolution) ; TODO(v0.2)"@,
        RuleView::EqualityFactoring => "(equality-factoring) ; TODO(v0.2)"@,
        RuleView::Demodulation => "(demodulation) ; TODO(v0.2)"@,
    }
}

proof fn lemma_pairs_listed(m: Map<VarId, TermId>, pairs: Seq<(VarId, TermId)>)
    requires
        lists(m, pairs),
    ensures
        Seq::new(pairs.len(), |i: int| pairs[i].0) == list_all(m.dom()),
{
    let vars = Seq::new(pairs.len(), |i: int| pairs[i].0);
    assert forall|v: VarId| #[trigger] vars.contains(v) <==> m.dom().contains(v) by {
        if vars.contains(v) {
            let i = choose|i: int| 0 <= i < vars.len() && vars[i] == v;
            assert(m.contains_key(pairs[i].0));
        }
        if m.dom().contains(v) {
            assert(m.contains_key(v));
            let i = choose|i: int| 0 <= i < pairs.len() && (#[trigger] pairs[i]).0 == v;
            assert(vars[i] == v);
        }
    }
    assert(ascending(vars));
    lemma_list_below(m.dom(), (u32::MAX + 1) as nat, vars);
}

/// Appends the text of a substitution.
fn render_subst(out: &mut String, sub: &Substitution)
    ensures
        final(out)@ == old(out)@ + subst_text(sub@),
{
    let pairs = sub.iter();
    let ghost vars = list_all(sub@.dom());
    let ghost texts = Seq::new(vars.len(), |i: int| binding_text(sub@, vars[i]));
    proof {
        lemma_pairs_listed(sub@, pairs@);
    }
    out.append("(subst ");
    let ghost head = out@;
    let mut i: usize = 0;
    assert(out@ =~= head + join(texts.take(0), " "@));
    while i < pairs.len()
        invariant
            lists(sub@, pairs@),
            vars == Seq::new(pairs@.len(), |i: int| pairs@[i].0),
            texts == Seq::new(vars.len(), |i: int| binding_text(sub@, vars[i])),
            i <= pairs@.len(),
            out@ == head + join(texts.take(i as int), " "@),
        decreases pairs@.len() - i,
    {
        if i > 0 {
            out.append(" ");
        }
        let (v, t) = pairs[i];
        proof {
            assert(sub@.contains_key(pairs@[i as int].0));
            assert(texts[i as int] == binding_text(sub@, v));
            assert(texts.take(i + 1).drop_last() =~= texts.take(i as int));
            assert(texts.take(i + 1).last() == texts[i as int]);
        }
        out.append("(");
        push_decimal(out, v as u64);
        out.append(" ");
        push_decimal(out, t as u64);
        out.append(")");
        assert(out@ =~= head + join(texts.take(i + 1), " "@));
        i += 1;
    }
    assert(texts.take(i as int) =~= texts);
    out.append(")");
    assert(out@ =~= old(out)@ + subst_text(sub@));
}

/// Appends the text of a rule.
fn render_rule(out: &mut String, rule: &InferenceRule)
    ensures
        final(out)@ == old(out)@ + rule_text(rule@),
{
    match rule {
        InferenceRule::Input => {
            out.append("(input)");
        },
        InferenceRule::Resolution { left, left_lit, right, right_lit, unifier } => {
            out.append("(resolution (left ");
            push_decimal(out, *left as u64);
            out.append(") (left_lit ");
            push_decimal(out, *left_lit as u64);
            out.append(") (right ");
            push_decimal(out, *right as u64);
            out.append(") (right_lit ");
            push_decimal(out, *right_lit as u64);
            out.append(") ");
            render_subst(out, unifier);
            out.append(")");
        },
        InferenceRule::Factoring { parent, lit_a, lit_b, unifier } => {
            out.append("(factoring (parent ");
            push_decimal(out, *parent as u64);
            out.append(") (lit_a ");
            push_decimal(out, *lit_a as u64);
            out.append(") (lit_b ");
            push_decimal(out, *lit_b as u64);
            out.append(") ");
            render_subst(out, unifier);
            out.append(")");
        },
        InferenceRule::Superposition => {
            out.append("(superposition) ; TODO(v0.2)");
        },
        InferenceRule::EqualityResolution => {
            out.append("(equality-resolution) ; TODO(v0.2)");
        },
        InferenceRule::EqualityFactoring => {
            out.append("(equality-factoring) ; TODO(v0.2)");
        },
        InferenceRule::Demodulation => {
            out.append("(demodulation) ; TODO(v0.2)");
        },
    }
    assert(out@ =~= old(out)@ + rule_text(rule@));
}

/// The line of a symbol.
pub open spec fn symbol_line(s: SymbolId, label: Seq<char>) -> Seq<char> {
    "    ("@ + decimal(s as nat) + " "@ + atom_text(label) + ")\n"@
}

/// The lines of the first `k` symbols.
pub open spec fn symbol_lines(syms: Seq<SymbolId>, labels: Seq<Seq<char>>, k: nat) -> Seq<char>
    decreases k,
{
    if k == 0 {
        Seq::empty()
    } else {
        symbol_lines(syms, labels, (k - 1) as nat) + symbol_line(syms[k - 1], labels[k - 1])
    }
}

/// The line of a term.
pub open spec fn term_line(arena: &TermArena, t: TermId) -> Seq<char> {
    match arena.node(t) {
        Node::Var(v) => "    ("@ + decimal(t as nat) + " (var "@ + decimal(v as nat) + "))\n"@,
        Node::App(s, args) => "    ("@ + decimal(t as nat) + " (app "@ + decimal(s as nat) + " ("@
            + numbers(args, " "@) + ")))\n"@,
    }
}

/// The lines of the first `k` terms.
pub open spec fn term_lines(arena: &TermArena, terms: Seq<TermId>, k: nat) -> Seq<char>
    decreases k,
{
    if k == 0 {
        Seq::empty()
    } else {
        term_lines(arena, terms, (k - 1) as nat) + term_line(arena, terms[k - 1])
    }
}

/// The line of a literal.
pub open spec fn literal_line(l: LitIds) -> Seq<char> {
    "        ("@ + (if l.positive {
        "pos"@
    } else {
        "neg"@
    }) + " "@ + decimal(l.predicate as nat) + " ("@ + numbers(l.args, " "@) + "))\n"@
}

/// The lines of the first `k` literals.
pub open spec fn literal_lines(ls: Seq<LitIds>, k: nat) -> Seq<char>
    decreases k,
{
    if k == 0 {
        Seq::empty()
    } else {
        literal_lines(ls, (k - 1) as nat) + literal_line(ls[k - 1])
    }
}

/// The lines of a clause.
pub open spec fn clause_block(c: ClauseView) -> Seq<char> {
    "    (clause "@ + decimal(c.id as nat) + "\n"@ + (if c.literals.len() == 0 {
        "      (literals)\n"@
    } else {
        "      (literals\n"@ + literal_lines(c.literals, c.literals.len()) + "      )\n"@
    }) + "      "@ + rule_text(c.inference.rule) + "\n"@ + "    )\n"@
}

/// The lines of the first `k` clauses.
pub open spec fn clause_blocks(cs: Seq<ClauseView>, k: nat) -> Seq<char>
    decreases k,
{
    if k == 0 {
        Seq::empty()
    } else {
        clause_blocks(cs, (k - 1) as nat) + clause_block(cs[k - 1])
    }
}

/// The ids of the terms that the clauses need, in ascending order.
pub open spec fn needed_terms(cs: Seq<ClauseView>, arena: &TermArena) -> Seq<TermId> {
    list_all(Set::new(|t: TermId| used_term(cs, arena, t)))
}

/// Whether the clauses or the terms that they need use a symbol.
pub open spec fn uses_symbol(cs: Seq<ClauseView>, arena: &TermArena, s: SymbolId) -> bool {
    is_predicate(cs, s) || is_head(Set::new(|t: TermId| used_term(cs, arena, t)), arena, s)
}

/// The ids of the symbols that the clauses and their terms use, in ascending
/// order.
pub open spec fn needed_symbols(cs: Seq<ClauseView>, arena: &TermArena) -> Seq<SymbolId> {
    list_all(Set::new(|s: SymbolId| uses_symbol(cs, arena, s)))
}

/// The text of a certificate, with the symbols labelled.
pub open spec fn beardag_text(
    cs: Seq<ClauseView>,
    arena: &TermArena,
    labels: Seq<Seq<char>>,
) -> Seq<char> {
    let syms = needed_symbols(cs, arena);
    let terms = needed_terms(cs, arena);
    ";; .beardag v1 — generated certificate, do not hand-edit\n"@ + "(beardag\n"@
        + "  (version 1)\n"@ + "  (symbols\n"@ + symbol_lines(syms, labels, syms.len())
        + "  )\n"@ + "  (terms\n"@ + term_lines(arena, terms, terms.len()) + "  )\n"@
        + "  (clauses\n"@ + clause_blocks(cs, cs.len()) + "  )\n"@ + "  (root "@ + decimal(
        cs.last().id as nat,
    ) + ")\n"@ + ")\n"@
}

/// Whether the function can name a symbol by this text.
pub open spec fn labelled<F: Fn(SymbolId) -> String>(f: F, s: SymbolId, label: Seq<char>) -> bool {
    exists|x: String| #[trigger] f.ensures((s,), x) && x@ == label
}

fn push_literals(out: &mut String, c: &Clause)
    ensures
        final(out)@ == old(out)@ + literal_lines(c@.literals, c@.literals.len()),
{
    let ghost ls = c@.literals;
    let mut i: usize = 0;
    assert(out@ =~= old(out)@ + literal_lines(ls, 0));
    while i < c.literals.len()
        invariant
            ls == c@.literals,
            i <= c.literals@.len(),
            out@ == old(out)@ + literal_lines(ls, i as nat),
        decreases c.literals@.len() - i,
    {
        let l = &c.literals[i];
        assert(ls[i as int] == l@);
        out.append("        (");
        out.append(if l.polarity {
            "pos"
        } else {
            "neg"
        });
        out.append(" ");
        push_decimal(out, l.predicate as u64);
        out.append(" (");
        push_numbers(out, l.args.as_slice(), " ");
        out.append("))\n");
        assert(out@ =~= old(out)@ + literal_lines(ls, (i + 1) as nat));
        i += 1;
    }
}

fn push_clause(out: &mut String, c: &Clause)
    ensures
        final(out)@ == old(out)@ + clause_block(c@),
{
    out.append("    (clause ");
    push_decimal(out, c.id as u64);
    out.append("\n");
    if c.literals.len() == 0 {
        out.append("      (literals)\n");
    } else {
        out.append("      (literals\n");
        push_literals(out, c);
        out.append("      )\n");
    }
    out.append("      ");
    render_rule(out, &c.inference.rule);
    out.append("\n");
    out.append("    )\n");
    assert(out@ =~= old(out)@ + clause_block(c@));
}

fn push_term_line(out: &mut String, arena: &TermArena, t: TermId)
    requires
        arena.wf(),
        arena.valid(t),
    ensures
        final(out)@ == old(out)@ + term_line(arena, t),
{
    out.append("    (");
    push_decimal(out, t as u64);
    match arena.get(t) {
        TermData::Var(v) => {
            out.append(" (var ");
            push_decimal(out, v as u64);
            out.append("))\n");
        },
        TermData::App(s, _, _) => {
            out.append(" (app ");
            push_decimal(out, s as u64);
            out.append(" (");
            push_numbers(out, arena.args(t), " ");
            out.append(")))\n");
        },
    }
    assert(out@ =~= old(out)@ + term_line(arena, t));
}

/// The members of a set of term ids, in ascending order.
fn sorted_terms(used: &HashSet<TermId>, arena: &TermArena) -> (r: Vec<TermId>)
    requires
        arena.wf(),
        forall|t: TermId| #[trigger] used@.contains(t) ==> arena.valid(t),
    ensures
        r@ == list_all(used@),
        forall|i: int| 0 <= i < r@.len() ==> arena.valid(#[trigger] r@[i]) && used@.contains(r@[i]),
{
    proof {
        arena.lemma_limits();
    }
    let n: u32 = arena.len() as u32;
    let mut r: Vec<TermId> = Vec::new();
    let mut t: u32 = 0;
    while t < n
        invariant
            t <= n,
            n == arena.data().len(),
            ascending(r@),
            forall|x: u32| #[trigger] r@.contains(x) <==> used@.contains(x) && x < t,
            forall|i: int|
                0 <= i < r@.len() ==> arena.valid(#[trigger] r@[i]) && used@.contains(r@[i])
                    && r@[i] < t,
        decreases n - t,
    {
        if used.contains(&t) {
            let ghost before = r@;
            r.push(t);
            proof {
                assert(r@[before.len() as int] == t);
                assert forall|x: u32| #[trigger] r@.contains(x) <==> used@.contains(x) && x < t
                    + 1 by {
                    if before.contains(x) {
                        let i = choose|i: int| 0 <= i < before.len() && before[i] == x;
                        assert(r@[i] == x);
                    }
                    if r@.contains(x) && x != t {
                        let i = choose|i: int| 0 <= i < r@.len() && r@[i] == x;
                        assert(before[i] == x);
                    }
                }
            }
        }
        t += 1;
    }
    proof {
        assert forall|x: u32| #[trigger] r@.contains(x) <==> used@.contains(x) && x < u32::MAX
            + 1 by {}
        lemma_list_below(used@, (u32::MAX + 1) as nat, r@);
    }
    r
}

fn to_btree(terms: &Vec<TermId>) -> (r: BTreeSet<TermId>)
    ensures
        r@ == terms@.to_set(),
{
    let mut r: BTreeSet<TermId> = BTreeSet::new();
    let mut i: usize = 0;
    assert(terms@.take(0).to_set() =~= Set::<TermId>::empty());
    while i < terms.len()
        invariant
            i <= terms@.len(),
            r@ == terms@.take(i as int).to_set(),
        decreases terms@.len() - i,
    {
        r.insert(terms[i]);
        proof {
            let a = terms@.take(i as int);
            let b = terms@.take(i + 1);
            assert(b =~= a.push(terms@[i as int]));
            assert(b.to_set() =~= a.to_set().insert(terms@[i as int])) by {
                assert(b[i as int] == terms@[i as int]);
                assert forall|x: TermId| a.contains(x) implies b.contains(x) by {
                    let k = choose|k: int| 0 <= k < a.len() && a[k] == x;
                    assert(b[k] == x);
                }
            }
        }
        i += 1;
    }
    assert(terms@.take(i as int) =~= terms@);
    r
}

/// The members of a set, in ascending order.
fn sorted_symbols(syms: &BTreeSet<SymbolId>) -> (r: Vec<SymbolId>)
    ensures
        r@ == list_all(syms@),
        forall|i: int| 0 <= i < r@.len() ==> syms@.contains(#[trigger] r@[i]),
{
    let mut r: Vec<SymbolId> = Vec::new();
    proof {
        lemma_listed(
            vstd::std_specs::btree::spec_btree_keys_iter(syms).remaining(),
            syms@,
        );
    }
    for s in it: syms.iter()
        invariant
            it.seq().no_duplicates(),
            forall|x: u32| #[trigger]
                syms@.contains(x) <==> exists|k: int|
                    0 <= k < it.seq().len() && *#[trigger] it.seq()[k] == x,
            ascending(r@),
            forall|x: u32| #[trigger]
                r@.contains(x) <==> exists|k: int|
                    0 <= k < it.index() && *#[trigger] it.seq()[k] == x,
    {
        let ghost before = r@;
        let x: SymbolId = *s;
        proof {
            if before.contains(x) {
                let k = choose|k: int| 0 <= k < it.index() && *#[trigger] it.seq()[k] == x;
                assert(it.seq()[k] == it.seq()[it.index()]);
            }
        }
        insert_sorted(&mut r, x);
        proof {
            assert forall|y: u32| #[trigger] r@.contains(y) <==> exists|k: int|
                0 <= k < it.index() + 1 && *#[trigger] it.seq()[k] == y by {
                assert(*it.seq()[it.index()] == x);
                if before.contains(y) {
                    let k = choose|k: int| 0 <= k < it.index() && *#[trigger] it.seq()[k] == y;
                    assert(*it.seq()[k] == y);
                }
            }
        }
    }
    proof {
        assert forall|x: u32| #[trigger] r@.contains(x) <==> syms@.contains(x) && x < u32::MAX
            + 1 by {}
        lemma_list_below(syms@, (u32::MAX + 1) as nat, r@);
        assert forall|i: int| 0 <= i < r@.len() implies syms@.contains(#[trigger] r@[i]) by {
            assert(r@.contains(r@[i]));
        }
    }
    r
}

/// Writes a certificate as text: the symbols with their names, the terms, the
/// clauses with their derivations, and the id of the empty clause, which has
/// to come last.
pub fn write_beardag<F: Fn(SymbolId) -> String>(
    clauses: &[Clause],
    arena: &TermArena,
    symbol_name: F,
) -> (r: Result<String, BeardagError>)
    requires
        clauses@.len() > 0 && clauses@.last()@.literals.len() == 0 ==> {
            &&& arena.wf()
            &&& mentions_valid(clause_views(clauses@), arena)
            &&& forall|s: SymbolId| #[trigger]
                uses_symbol(clause_views(clauses@), arena, s) ==> symbol_name.requires((s,))
        },
    ensures
        match r {
            Ok(text) => {
                &&& clauses@.len() > 0
                &&& clauses@.last()@.literals.len() == 0
                &&& exists|labels: Seq<Seq<char>>| #[trigger]
                    beardag_text(clause_views(clauses@), arena, labels) == text@ && labels.len()
                        == needed_symbols(clause_views(clauses@), arena).len() && forall|i: int|
                        0 <= i < labels.len() ==> labelled(
                            symbol_name,
                            needed_symbols(clause_views(clauses@), arena)[i],
                            #[trigger] labels[i],
                        )
            },
            Err(BeardagError::EmptyCertificate) => clauses@.len() == 0,
            Err(BeardagError::NotBottomTerminated { last_id }) => {
                &&& clauses@.len() > 0
                &&& clauses@.last()@.literals.len() > 0
                &&& last_id == clauses@.last()@.id
            },
        },
{
    if clauses.len() == 0 {
        return Err(BeardagError::EmptyCertificate);
    }
    let root = &clauses[clauses.len() - 1];
    if !root.is_empty() {
        return Err(BeardagError::NotBottomTerminated { last_id: root.id });
    }
    let root_id: ClauseId = root.id;
    let ghost cs = clause_views(clauses@);
    let ghost used_set = Set::new(|t: TermId| used_term(cs, arena, t));
    let used: HashSet<TermId> = collect_used_term_ids(clauses, arena);
    proof {
        assert(used@ =~= used_set);
        assert forall|t: TermId| #[trigger] used@.contains(t) implies arena.valid(t) by {
            lemma_used_valid(cs, arena, t);
        }
    }
    let terms: Vec<TermId> = sorted_terms(&used, arena);
    let used_btree: BTreeSet<TermId> = to_btree(&terms);
    proof {
        lemma_list_all_set(used_set);
        assert(used_btree@ =~= used_set);
    }
    let sym_set: BTreeSet<SymbolId> = used_symbol_ids(clauses, &used_btree, arena);
    let syms: Vec<SymbolId> = sorted_symbols(&sym_set);
    proof {
        assert(sym_set@ =~= Set::new(|s: SymbolId| uses_symbol(cs, arena, s)));
    }
    let mut out = String::new();
    out.append(";; .beardag v1 — generated certificate, do not hand-edit\n");
    out.append("(beardag\n");
    out.append("  (version 1)\n");
    out.append("  (symbols\n");
    let ghost head = out@;
    let ghost mut labels: Seq<Seq<char>> = Seq::empty();
    let mut i: usize = 0;
    assert(out@ =~= head + symbol_lines(syms@, labels, 0));
    while i < syms.len()
        invariant
            forall|k: int| 0 <= k < syms@.len() ==> uses_symbol(cs, arena, #[trigger] syms@[k]),
            forall|s: SymbolId| #[trigger]
                uses_symbol(cs, arena, s) ==> symbol_name.requires((s,)),
            i <= syms@.len(),
            labels.len() == i,
            forall|k: int|
                0 <= k < i ==> labelled(symbol_name, syms@[k], #[trigger] labels[k]),
            out@ == head + symbol_lines(syms@, labels, i as nat),
        decreases syms@.len() - i,
    {
        assert(uses_symbol(cs, arena, syms@[i as int]));
        let name: String = symbol_name(syms[i]);
        let ghost before = labels;
        proof {
            assert(labelled(symbol_name, syms@[i as int], name@));
            labels = labels.push(name@);
            lemma_symbol_lines_prefix(syms@, before, labels, i as nat);
        }
        out.append("    (");
        push_decimal(&mut out, syms[i] as u64);
        out.append(" ");
        push_atom(&mut out, name.as_str());
        out.append(")\n");
        assert(out@ =~= head + symbol_lines(syms@, labels, (i + 1) as nat));
        i += 1;
    }
    out.append("  )\n");
    out.append("  (terms\n");
    let ghost head2 = out@;
    let mut j: usize = 0;
    assert(out@ =~= head2 + term_lines(arena, terms@, 0));
    while j < terms.len()
        invariant
            arena.wf(),
            forall|k: int| 0 <= k < terms@.len() ==> arena.valid(#[trigger] terms@[k]),
            j <= terms@.len(),
            out@ == head2 + term_lines(arena, terms@, j as nat),
        decreases terms@.len() - j,
    {
        push_term_line(&mut out, arena, terms[j]);
        assert(out@ =~= head2 + term_lines(arena, terms@, (j + 1) as nat));
        j += 1;
    }
    out.append("  )\n");
    out.append("  (clauses\n");
    let ghost head3 = out@;
    let mut k: usize = 0;
    assert(out@ =~= head3 + clause_blocks(cs, 0));
    while k < clauses.len()
        invariant
            cs == clause_views(clauses@),
            k <= clauses@.len(),
            out@ == head3 + clause_blocks(cs, k as nat),
        decreases clauses@.len() - k,
    {
        assert(cs[k as int] == clauses@[k as int]@);
        push_clause(&mut out, &clauses[k]);
        assert(out@ =~= head3 + clause_blocks(cs, (k + 1) as nat));
        k += 1;
    }
    out.append("  )\n");
    out.append("  (root ");
    push_decimal(&mut out, root_id as u64);
    out.append(")\n");
    out.append(")\n");
    proof {
        assert(cs.last() == clauses@.last()@);
        assert(out@ =~= beardag_text(cs, arena, labels));
    }
    Ok(out)
}

proof fn lemma_symbol_lines_prefix(
    syms: Seq<SymbolId>,
    a: Seq<Seq<char>>,
    b: Seq<Seq<char>>,
    k: nat,
)
    requires
        k <= a.len(),
        a.len() <= b.len(),
        forall|i: int| 0 <= i < a.len() ==> a[i] == b[i],
    ensures
        symbol_lines(syms, a, k) == symbol_lines(syms, b, k),
    decreases k,
{
    if k > 0 {
        lemma_symbol_lines_prefix(syms, a, b, (k - 1) as nat);
    }
}

pub(crate) proof fn lemma_list_below_members(s: Set<u32>, n: nat)
    requires
        n <= u32::MAX + 1,
    ensures
        forall|x: u32| #[trigger] list_below(s, n).contains(x) <==> s.contains(x) && x < n,
    decreases n,
{
    if n > 0 {
        lemma_list_below_members(s, (n - 1) as nat);
        let rest = list_below(s, (n - 1) as nat);
        let all = list_below(s, n);
        let top = (n - 1) as u32;
        assert forall|x: u32| #[trigger] all.contains(x) <==> s.contains(x) && x < n by {
            if s.contains(top) {
                assert(all[rest.len() as int] == top);
                if rest.contains(x) {
                    let i = choose|i: int| 0 <= i < rest.len() && rest[i] == x;
                    assert(all[i] == x);
                }
                if all.contains(x) && x != top {
                    let i = choose|i: int| 0 <= i < all.len() && all[i] == x;
                    assert(rest[i] == x);
                }
            }
        }
    }
}

proof fn lemma_list_all_set(s: Set<u32>)
    ensures
        list_all(s).to_set() == s,
{
    lemma_list_below_members(s, (u32::MAX + 1) as nat);
    assert forall|x: u32| s.contains(x) <==> list_all(s).contains(x) by {
        assert(list_below(s, (u32::MAX + 1) as nat).contains(x) <==> s.contains(x));
    }
    assert(list_all(s).to_set() =~= s);
}

// ---------------------------------------------------------------------------
// Laws.
// ---------------------------------------------------------------------------
pub(crate) proof fn lemma_list_below_ascending(s: Set<u32>, n: nat)
    requires
        n <= u32::MAX + 1,
    ensures
        ascending(list_below(s, n)),
        forall|i: int| 0 <= i < list_below(s, n).len() ==> (#[trigger] list_below(s, n)[i]) < n,
    decreases n,
{
    if n > 0 {
        lemma_list_below_ascending(s, (n - 1) as nat);
    }
}

/// A certificate can be read from top to bottom: every term is listed after
/// all its arguments.
pub proof fn terms_follow_their_arguments(
    cs: Seq<ClauseView>,
    arena: &TermArena,
    i: int,
    k: int,
)
    requires
        arena.wf(),
        mentions_valid(cs, arena),
        0 <= i < needed_terms(cs, arena).len(),
        0 <= k < arena.arg_ids(needed_terms(cs, arena)[i]).len(),
    ensures
        needed_terms(cs, arena).take(i).contains(
            arena.arg_ids(needed_terms(cs, arena)[i])[k],
        ),
{
    let used = Set::new(|t: TermId| used_term(cs, arena, t));
    let terms = needed_terms(cs, arena);
    let t = terms[i];
    let a = arena.arg_ids(t)[k];
    lemma_list_below_members(used, (u32::MAX + 1) as nat);
    lemma_list_below_ascending(used, (u32::MAX + 1) as nat);
    assert(terms.contains(t));
    assert(used.contains(t));
    lemma_used_argument(cs, arena, t, k);
    lemma_used_valid(cs, arena, t);
    arena.lemma_args_below(t);
    assert(used.contains(a));
    assert(terms.contains(a));
    let j = choose|j: int| 0 <= j < terms.len() && terms[j] == a;
    assert(j < i) by {
        if i < j {
            assert(terms[i] < terms[j]);
        }
    }
    assert(terms.take(i)[j] == a);
}

/// A certificate names every symbol that it uses: the predicates of its
/// clauses and the heads of its terms.
pub proof fn used_symbols_are_named(cs: Seq<ClauseView>, arena: &TermArena, s: SymbolId)
    ensures
        needed_symbols(cs, arena).contains(s) <==> uses_symbol(cs, arena, s),
{
    let syms = Set::new(|s: SymbolId| uses_symbol(cs, arena, s));
    lemma_list_below_members(syms, (u32::MAX + 1) as nat);
    assert(list_below(syms, (u32::MAX + 1) as nat).contains(s) <==> syms.contains(s));
}

/// A certificate lists every term that its clauses mention.
pub proof fn mentioned_terms_are_listed(cs: Seq<ClauseView>, arena: &TermArena, t: TermId)
    requires
        mentioned(cs, t),
    ensures
        needed_terms(cs, arena).contains(t),
{
    let used = Set::new(|t: TermId| used_term(cs, arena, t));
    lemma_list_below_members(used, (u32::MAX + 1) as nat);
    assert(subterm(arena, t, t));
    assert(used.contains(t));
    assert(list_below(used, (u32::MAX + 1) as nat).contains(t));
}

/// A certificate lists the arguments of all literals of its clauses, and names
/// their predicates.
pub proof fn literals_are_listed(
    cs: Seq<ClauseView>,
    arena: &TermArena,
    i: int,
    l: int,
    a: int,
)
    requires
        0 <= i < cs.len(),
        0 <= l < cs[i].literals.len(),
    ensures
        needed_symbols(cs, arena).contains(cs[i].literals[l].predicate),
        0 <= a < cs[i].literals[l].args.len() ==> needed_terms(cs, arena).contains(
            cs[i].literals[l].args[a],
        ),
{
    used_symbols_are_named(cs, arena, cs[i].literals[l].predicate);
    assert(is_predicate(cs, cs[i].literals[l].predicate));
    if 0 <= a < cs[i].literals[l].args.len() {
        let t = cs[i].literals[l].args[a];
        assert(mentions(cs[i], t));
        mentioned_terms_are_listed(cs, arena, t);
    }
}

/// A certificate lists the terms that variables are bound to in its steps.
pub proof fn bindings_are_listed(cs: Seq<ClauseView>, arena: &TermArena, i: int, v: VarId)
    requires
        0 <= i < cs.len(),
    ensures
        match cs[i].inference.rule {
            RuleView::Resolution { unifier, .. } => unifier.contains_key(v) ==> needed_terms(
                cs,
                arena,
            ).contains(unifier[v]),
            RuleView::Factoring { unifier, .. } => unifier.contains_key(v) ==> needed_terms(
                cs,
                arena,
            ).contains(unifier[v]),
            _ => true,
        },
{
    if let Some(unifier) = unifier_of(cs[i].inference.rule) {
        if unifier.contains_key(v) {
            assert(unifier_of(cs[i].inference.rule)->Some_0.contains_key(v));
            assert(mentions(cs[i], unifier[v]));
            mentioned_terms_are_listed(cs, arena, unifier[v]);
        }
    }
}

/// A certificate names the symbol of every application that it lists.
pub proof fn heads_are_named(cs: Seq<ClauseView>, arena: &TermArena, i: int)
    requires
        0 <= i < needed_terms(cs, arena).len(),
    ensures
        arena.node(needed_terms(cs, arena)[i]) matches Node::App(f, _) ==> needed_symbols(
            cs,
            arena,
        ).contains(f),
{
    let used = Set::new(|t: TermId| used_term(cs, arena, t));
    let terms = needed_terms(cs, arena);
    let t = terms[i];
    lemma_list_below_members(used, (u32::MAX + 1) as nat);
    assert(terms.contains(t));
    assert(used.contains(t));
    if let Node::App(f, _) = arena.node(t) {
        assert(is_head(used, arena, f));
        used_symbols_are_named(cs, arena, f);
    }
}

proof fn lemma_escaped_injective(a: Seq<char>, b: Seq<char>)
    requires
        escaped(a) == escaped(b),
    ensures
        a == b,
    decreases a.len(),
{
    if a.len() == 0 || b.len() == 0 {
        assert(a.len() > 0 ==> escaped(a).len() > 0);
        assert(b.len() > 0 ==> escaped(b).len() > 0);
        assert(escaped(Seq::<char>::empty()).len() == 0);
        assert(a.len() == 0 ==> a =~= Seq::<char>::empty());
        assert(b.len() == 0 ==> b =~= Seq::<char>::empty());
        assert(a =~= b);
    } else {
        let x = escaped(a);
        assert(x.last() == a.last() && x.last() == b.last());
        let c = a.last();
        if c == '\\' || c == '"' {
            assert(x.drop_last().drop_last() =~= escaped(a.drop_last()));
            assert(x.drop_last().drop_last() =~= escaped(b.drop_last()));
        } else {
            assert(x.drop_last() =~= escaped(a.drop_last()));
            assert(x.drop_last() =~= escaped(b.drop_last()));
        }
        lemma_escaped_injective(a.drop_last(), b.drop_last());
        assert(a =~= a.drop_last().push(c));
        assert(b =~= b.drop_last().push(c));
    }
}

/// Different names are different atoms.
pub proof fn atoms_are_unambiguous(a: Seq<char>, b: Seq<char>)
    requires
        atom_text(a) == atom_text(b),
    ensures
        a == b,
{
    reveal_strlit("\"");
    let quoted_a = a.len() == 0 || exists|i: int| 0 <= i < a.len() && delimits(#[trigger] a[i]);
    let quoted_b = b.len() == 0 || exists|i: int| 0 <= i < b.len() && delimits(#[trigger] b[i]);
    let x = atom_text(a);
    if quoted_a {
        assert(x[0] == '"');
    }
    if quoted_b {
        assert(x[0] == '"');
    }
    if quoted_a && quoted_b {
        assert(x.subrange(1, x.len() - 1) =~= escaped(a));
        assert(x.subrange(1, x.len() - 1) =~= escaped(b));
        lemma_escaped_injective(a, b);
    } else if quoted_a {
        assert(delimits(b[0]));
    } else if quoted_b {
        assert(delimits(a[0]));
    }
}

} // verus!
