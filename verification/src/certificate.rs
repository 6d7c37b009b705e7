//! A reader of `.beardag` certificates, as mathematics, and that it gives back
//! what was written.
use crate::beardag::{
    atom_text, beardag_text, binding_text, clause_block, clause_blocks, delimits, escaped,
    lemma_list_below_ascending, lemma_list_below_members, literal_line, literal_lines,
    needed_symbols, needed_terms, rule_text, subst_text, symbol_line, symbol_lines, term_line,
    term_lines,
};
use crate::clause::{ClauseView, LitIds, RuleView};
use crate::term::{Node, SymbolId, TermArena, TermId, VarId};
use crate::text::{
    ascending, decimal, is_digit, join, lemma_join_first, list_all, number_of, numbers,
    numerals_stand_for_their_number,
};
use vstd::prelude::*;

verus! {

// ---------------------------------------------------------------------------
// The reader.
// ---------------------------------------------------------------------------
/// What follows `key` at the start of a text.
#[verifier::opaque]
pub open spec fn take_text(s: Seq<char>, key: Seq<char>) -> Option<Seq<char>> {
    if key.len() <= s.len() && s.take(key.len() as int) == key {
        Some(s.skip(key.len() as int))
    } else {
        None
    }
}

/// Number of digits at the start of a text.
pub open spec fn digit_count(s: Seq<char>) -> nat
    decreases s.len(),
{
    if s.len() > 0 && is_digit(s[0]) {
        1 + digit_count(s.skip(1))
    } else {
        0
    }
}

/// The number at the start of a text, and what follows it.
#[verifier::opaque]
pub open spec fn take_number(s: Seq<char>) -> Option<(nat, Seq<char>)> {
    let k = digit_count(s) as int;
    if k == 0 {
        None
    } else {
        Some((number_of(s.take(k)), s.skip(k)))
    }
}

/// The number between two keys.
#[verifier::opaque]
pub open spec fn take_field(s: Seq<char>, key: Seq<char>) -> Option<(nat, Seq<char>)> {
    match take_text(s, key) {
        None => None,
        Some(r) => take_number(r),
    }
}

/// Numbers with a space between neighbours, and what follows them.
pub open spec fn take_numbers(s: Seq<char>) -> (Seq<nat>, Seq<char>)
    decreases s.len(),
{
    match take_number(s) {
        None => (Seq::empty(), s),
        Some((n, r)) => if 0 < r.len() < s.len() && r[0] == ' ' {
            let (ns, e) = take_numbers(r.skip(1));
            (seq![n] + ns, e)
        } else {
            (seq![n], r)
        },
    }
}

/// A variable and the term that it is bound to.
#[verifier::opaque]
pub open spec fn take_binding(s: Seq<char>) -> Option<((nat, nat), Seq<char>)> {
    match take_field(s, "("@) {
        None => None,
        Some((v, r)) => match take_field(r, " "@) {
            None => None,
            Some((t, e)) => match take_text(e, ")"@) {
                None => None,
                Some(e) => Some(((v, t), e)),
            },
        },
    }
}

/// Bindings with a space between neighbours, and what follows them.
pub open spec fn take_bindings(s: Seq<char>) -> (Seq<(nat, nat)>, Seq<char>)
    decreases s.len(),
{
    match take_binding(s) {
        None => (Seq::empty(), s),
        Some((p, r)) => if 0 < r.len() < s.len() && r[0] == ' ' {
            let (ps, e) = take_bindings(r.skip(1));
            (seq![p] + ps, e)
        } else {
            (seq![p], r)
        },
    }
}

/// A substitution, and what follows it.
#[verifier::opaque]
pub open spec fn take_subst(s: Seq<char>) -> Option<(Seq<(nat, nat)>, Seq<char>)> {
    match take_text(s, "(subst "@) {
        None => None,
        Some(r) => {
            let (ps, e) = take_bindings(r);
            match take_text(e, ")"@) {
                None => None,
                Some(e) => Some((ps, e)),
            }
        },
    }
}

/// A step of a certificate, as it was read.
pub enum Step {
    Input,
    Resolution { left: nat, left_lit: nat, right: nat, right_lit: nat, subst: Seq<(nat, nat)> },
    Factoring { parent: nat, lit_a: nat, lit_b: nat, subst: Seq<(nat, nat)> },
}

/// A step by resolution: its fields `left`, `left_lit`, `right` and
/// `right_lit`, and its substitution.
#[verifier::opaque]
pub open spec fn take_resolution(s: Seq<char>) -> Option<(Step, Seq<char>)> {
    match take_field(s, "(resolution (left "@) {
        None => None,
        Some((left, r)) => match take_field(r, ") (left_lit "@) {
            None => None,
            Some((left_lit, r)) => match take_field(r, ") (right "@) {
                None => None,
                Some((right, r)) => match take_field(r, ") (right_lit "@) {
                    None => None,
                    Some((right_lit, r)) => match take_text(r, ") "@) {
                        None => None,
                        Some(r) => match take_subst(r) {
                            None => None,
                            Some((subst, r)) => match take_text(r, ")"@) {
                                None => None,
                                Some(r) => Some(
                                    (
                                        Step::Resolution { left, left_lit, right, right_lit, subst },
                                        r,
                                    ),
                                ),
                            },
                        },
                    },
                },
            },
        },
    }
}

/// A step by factoring: its fields `parent`, `lit_a` and `lit_b`, and its
/// substitution.
#[verifier::opaque]
pub open spec fn take_factoring(s: Seq<char>) -> Option<(Step, Seq<char>)> {
    match take_field(s, "(factoring (parent "@) {
        None => None,
        Some((parent, r)) => match take_field(r, ") (lit_a "@) {
            None => None,
            Some((lit_a, r)) => match take_field(r, ") (lit_b "@) {
                None => None,
                Some((lit_b, r)) => match take_text(r, ") "@) {
                    None => None,
                    Some(r) => match take_subst(r) {
                        None => None,
                        Some((subst, r)) => match take_text(r, ")"@) {
                            None => None,
                            Some(r) => Some((Step::Factoring { parent, lit_a, lit_b, subst }, r)),
                        },
                    },
                },
            },
        },
    }
}

/// The step at the start of a text, and what follows it.
#[verifier::opaque]
pub open spec fn take_step(s: Seq<char>) -> Option<(Step, Seq<char>)> {
    match take_text(s, "(input)"@) {
        Some(r) => Some((Step::Input, r)),
        None => match take_resolution(s) {
            Some(x) => Some(x),
            None => take_factoring(s),
        },
    }
}

/// Whether these are the bindings of a substitution, in ascending order of the
/// variables.
pub open spec fn binds(ps: Seq<(nat, nat)>, m: Map<VarId, TermId>) -> bool {
    &&& forall|i: int, j: int| 0 <= i < j < ps.len() ==> (#[trigger] ps[i]).0 < (#[trigger] ps[j]).0
    &&& forall|i: int|
        0 <= i < ps.len() ==> {
            &&& (#[trigger] ps[i]).0 <= u32::MAX
            &&& m.contains_key(ps[i].0 as VarId)
            &&& m[ps[i].0 as VarId] == ps[i].1
        }
    &&& forall|v: VarId| #[trigger]
        m.contains_key(v) ==> exists|i: int| 0 <= i < ps.len() && (#[trigger] ps[i]).0 == v
}

/// Whether a step says what the rule says.
pub open spec fn tells(step: Step, rule: RuleView) -> bool {
    match (step, rule) {
        (Step::Input, RuleView::Input) => true,
        (
            Step::Resolution { left, left_lit, right, right_lit, subst },
            RuleView::Resolution { left: l, left_lit: x, right: r, right_lit: y, unifier },
        ) => left == l && left_lit == x && right == r && right_lit == y && binds(subst, unifier),
        (
            Step::Factoring { parent, lit_a, lit_b, subst },
            RuleView::Factoring { parent: p, lit_a: x, lit_b: y, unifier },
        ) => parent == p && lit_a == x && lit_b == y && binds(subst, unifier),
        _ => false,
    }
}

/// Whether the rule is one that the prover uses.
pub open spec fn is_step(rule: RuleView) -> bool {
    rule is Input || rule is Resolution || rule is Factoring
}

/// The characters of a name in quotes, up to the closing quote; a backslash
/// stands before a character that is meant as it is.
pub open spec fn take_quoted(s: Seq<char>) -> (Seq<char>, Seq<char>)
    decreases s.len(),
{
    if s.len() == 0 {
        (Seq::empty(), s)
    } else if s[0] == '"' {
        (Seq::empty(), s.skip(1))
    } else if s[0] == '\\' && s.len() > 1 {
        let (n, e) = take_quoted(s.skip(2));
        (seq![s[1]] + n, e)
    } else {
        let (n, e) = take_quoted(s.skip(1));
        (seq![s[0]] + n, e)
    }
}

/// Number of characters before white space, a parenthesis, a quote or a
/// semicolon.
pub open spec fn bare_length(s: Seq<char>) -> nat
    decreases s.len(),
{
    if s.len() == 0 || crate::text::white_space(s[0]) || s[0] == '(' || s[0] == ')' || s[0] == '"'
        || s[0] == ';' {
        0
    } else {
        1 + bare_length(s.skip(1))
    }
}

/// The name at the start of a text, bare or in quotes, and what follows it.
#[verifier::opaque]
pub open spec fn take_atom(s: Seq<char>) -> (Seq<char>, Seq<char>) {
    if s.len() > 0 && s[0] == '"' {
        take_quoted(s.skip(1))
    } else {
        (s.take(bare_length(s) as int), s.skip(bare_length(s) as int))
    }
}

/// The line of a symbol: its number and its name.
#[verifier::opaque]
pub open spec fn take_symbol(s: Seq<char>) -> Option<((nat, Seq<char>), Seq<char>)> {
    match take_field(s, "    ("@) {
        None => None,
        Some((n, r)) => match take_text(r, " "@) {
            None => None,
            Some(r) => {
                let (name, r) = take_atom(r);
                match take_text(r, ")\n"@) {
                    None => None,
                    Some(r) => Some(((n, name), r)),
                }
            },
        },
    }
}

/// The lines of symbols, and what follows them.
pub open spec fn take_symbols(s: Seq<char>) -> (Seq<(nat, Seq<char>)>, Seq<char>)
    decreases s.len(),
{
    match take_symbol(s) {
        None => (Seq::empty(), s),
        Some((x, r)) => if r.len() < s.len() {
            let (xs, e) = take_symbols(r);
            (seq![x] + xs, e)
        } else {
            (Seq::empty(), s)
        },
    }
}

/// A term of a certificate, as it was read.
pub enum Entry {
    Var(nat),
    App(nat, Seq<nat>),
}

/// The line of a term: its number, and what it is.
#[verifier::opaque]
pub open spec fn take_term(s: Seq<char>) -> Option<((nat, Entry), Seq<char>)> {
    match take_field(s, "    ("@) {
        None => None,
        Some((n, r)) => match take_field(r, " (var "@) {
            Some((v, r)) => match take_text(r, "))\n"@) {
                None => None,
                Some(r) => Some(((n, Entry::Var(v)), r)),
            },
            None => match take_field(r, " (app "@) {
                None => None,
                Some((f, r)) => match take_text(r, " ("@) {
                    None => None,
                    Some(r) => {
                        let (args, r) = take_numbers(r);
                        match take_text(r, ")))\n"@) {
                            None => None,
                            Some(r) => Some(((n, Entry::App(f, args)), r)),
                        }
                    },
                },
            },
        },
    }
}

/// The lines of terms, and what follows them.
pub open spec fn take_terms(s: Seq<char>) -> (Seq<(nat, Entry)>, Seq<char>)
    decreases s.len(),
{
    match take_term(s) {
        None => (Seq::empty(), s),
        Some((x, r)) => if r.len() < s.len() {
            let (xs, e) = take_terms(r);
            (seq![x] + xs, e)
        } else {
            (Seq::empty(), s)
        },
    }
}

/// A literal of a certificate, as it was read.
pub struct Said {
    pub positive: bool,
    pub predicate: nat,
    pub args: Seq<nat>,
}

/// The line of a literal after its sign.
#[verifier::opaque]
pub open spec fn take_unsigned(s: Seq<char>, positive: bool) -> Option<(Said, Seq<char>)> {
    match take_field(s, " "@) {
        None => None,
        Some((predicate, r)) => match take_text(r, " ("@) {
            None => None,
            Some(r) => {
                let (args, r) = take_numbers(r);
                match take_text(r, "))\n"@) {
                    None => None,
                    Some(r) => Some((Said { positive, predicate, args }, r)),
                }
            },
        },
    }
}

/// The line of a literal.
#[verifier::opaque]
pub open spec fn take_literal(s: Seq<char>) -> Option<(Said, Seq<char>)> {
    match take_text(s, "        ("@) {
        None => None,
        Some(r) => match take_text(r, "pos"@) {
            Some(r) => take_unsigned(r, true),
            None => match take_text(r, "neg"@) {
                Some(r) => take_unsigned(r, false),
                None => None,
            },
        },
    }
}

/// The lines of literals, and what follows them.
pub open spec fn take_literals(s: Seq<char>) -> (Seq<Said>, Seq<char>)
    decreases s.len(),
{
    match take_literal(s) {
        None => (Seq::empty(), s),
        Some((x, r)) => if r.len() < s.len() {
            let (xs, e) = take_literals(r);
            (seq![x] + xs, e)
        } else {
            (Seq::empty(), s)
        },
    }
}

/// A clause of a certificate, as it was read.
pub struct Record {
    pub id: nat,
    pub literals: Seq<Said>,
    pub step: Step,
}

/// The literals of a clause, and what follows them.
#[verifier::opaque]
pub open spec fn take_body(s: Seq<char>) -> Option<(Seq<Said>, Seq<char>)> {
    match take_text(s, "      (literals)\n"@) {
        Some(r) => Some((Seq::empty(), r)),
        None => match take_text(s, "      (literals\n"@) {
            None => None,
            Some(r) => {
                let (ls, r) = take_literals(r);
                match take_text(r, "      )\n"@) {
                    None => None,
                    Some(r) => Some((ls, r)),
                }
            },
        },
    }
}

/// The lines of a clause.
#[verifier::opaque]
pub open spec fn take_clause(s: Seq<char>) -> Option<(Record, Seq<char>)> {
    match take_field(s, "    (clause "@) {
        None => None,
        Some((id, r)) => match take_text(r, "\n"@) {
            None => None,
            Some(r) => match take_body(r) {
                None => None,
                Some((literals, r)) => match take_text(r, "      "@) {
                    None => None,
                    Some(r) => match take_step(r) {
                        None => None,
                        Some((step, r)) => match take_text(r, "\n    )\n"@) {
                            None => None,
                            Some(r) => Some((Record { id, literals, step }, r)),
                        },
                    },
                },
            },
        },
    }
}

/// The lines of clauses, and what follows them.
pub open spec fn take_clauses(s: Seq<char>) -> (Seq<Record>, Seq<char>)
    decreases s.len(),
{
    match take_clause(s) {
        None => (Seq::empty(), s),
        Some((x, r)) => if r.len() < s.len() {
            let (xs, e) = take_clauses(r);
            (seq![x] + xs, e)
        } else {
            (Seq::empty(), s)
        },
    }
}

/// A certificate, as it was read.
pub struct Certificate {
    pub symbols: Seq<(nat, Seq<char>)>,
    pub terms: Seq<(nat, Entry)>,
    pub clauses: Seq<Record>,
    pub root: nat,
}

/// The text before the symbols.
pub open spec fn take_head(s: Seq<char>) -> Option<Seq<char>> {
    match take_text(s, ";; .beardag v1 — generated certificate, do not hand-edit\n"@) {
        None => None,
        Some(r) => take_text(r, "(beardag\n  (version 1)\n"@),
    }
}

/// The certificate that a text is.
pub open spec fn read_certificate(s: Seq<char>) -> Option<Certificate> {
    match take_head(s) {
        None => None,
        Some(r) => match take_text(r, "  (symbols\n"@) {
            None => None,
            Some(r) => {
                let (symbols, r) = take_symbols(r);
                match take_text(r, "  )\n  (terms\n"@) {
                    None => None,
                    Some(r) => {
                        let (terms, r) = take_terms(r);
                        match take_text(r, "  )\n  (clauses\n"@) {
                            None => None,
                            Some(r) => {
                                let (clauses, r) = take_clauses(r);
                                match take_field(r, "  )\n  (root "@) {
                                    None => None,
                                    Some((root, r)) => if r == ")\n)\n"@ {
                                        Some(Certificate { symbols, terms, clauses, root })
                                    } else {
                                        None
                                    },
                                }
                            },
                        }
                    },
                }
            },
        },
    }
}

/// Whether a literal says what the literal of a clause says.
pub open spec fn says_literal(x: Said, l: LitIds) -> bool {
    x.positive == l.positive && x.predicate == l.predicate && x.args == values(l.args)
}

/// Whether a record says what the clause says.
pub open spec fn says_clause(x: Record, c: ClauseView) -> bool {
    &&& x.id == c.id
    &&& x.literals.len() == c.literals.len()
    &&& forall|i: int|
        0 <= i < x.literals.len() ==> says_literal(#[trigger] x.literals[i], c.literals[i])
    &&& tells(x.step, c.inference.rule)
}

/// Whether an entry says what the term is.
pub open spec fn says_term(x: Entry, node: Node) -> bool {
    match (x, node) {
        (Entry::Var(v), Node::Var(w)) => v == w,
        (Entry::App(f, args), Node::App(g, ids)) => f == g && args == values(ids),
        _ => false,
    }
}

/// Whether the certificate that was read holds these clauses, with the symbols
/// and terms that they use.
pub open spec fn certifies(
    x: Certificate,
    cs: Seq<ClauseView>,
    arena: &TermArena,
    labels: Seq<Seq<char>>,
) -> bool {
    let syms = needed_symbols(cs, arena);
    let terms = needed_terms(cs, arena);
    &&& x.symbols.len() == syms.len()
    &&& forall|i: int|
        0 <= i < syms.len() ==> #[trigger] x.symbols[i] == (syms[i] as nat, labels[i])
    &&& x.terms.len() == terms.len()
    &&& forall|i: int|
        0 <= i < terms.len() ==> (#[trigger] x.terms[i]).0 == terms[i] && says_term(
            x.terms[i].1,
            arena.node(terms[i]),
        )
    &&& x.clauses.len() == cs.len()
    &&& forall|i: int| 0 <= i < cs.len() ==> says_clause(#[trigger] x.clauses[i], cs[i])
    &&& x.root == cs.last().id
}

// ---------------------------------------------------------------------------
// Numbers and keys.
// ---------------------------------------------------------------------------
pub(crate) proof fn lemma_take(key: Seq<char>, rest: Seq<char>)
    ensures
        take_text(key + rest, key) == Some(rest),
{
    reveal(take_text);
    assert((key + rest).take(key.len() as int) =~= key);
    assert((key + rest).skip(key.len() as int) =~= rest);
}

pub(crate) proof fn lemma_take_not(s: Seq<char>, key: Seq<char>, i: int)
    requires
        0 <= i < key.len(),
        i < s.len() ==> s[i] != key[i],
    ensures
        take_text(s, key) is None,
        take_field(s, key) is None,
{
    reveal(take_field);
    reveal(take_text);
    if key.len() <= s.len() && s.take(key.len() as int) == key {
        assert(s.take(key.len() as int)[i] == s[i]);
    }
}

proof fn lemma_digit_count(a: Seq<char>, rest: Seq<char>)
    requires
        forall|i: int| 0 <= i < a.len() ==> is_digit(#[trigger] a[i]),
        rest.len() > 0 ==> !is_digit(rest[0]),
    ensures
        digit_count(a + rest) == a.len(),
    decreases a.len(),
{
    let s = a + rest;
    if a.len() > 0 {
        assert(s[0] == a[0]);
        assert(s.skip(1) =~= a.skip(1) + rest);
        assert forall|i: int| 0 <= i < a.skip(1).len() implies is_digit(
            #[trigger] a.skip(1)[i],
        ) by {
            assert(a.skip(1)[i] == a[i + 1]);
        }
        lemma_digit_count(a.skip(1), rest);
    } else {
        assert(s =~= rest);
    }
}

pub(crate) proof fn lemma_take_number(n: nat, rest: Seq<char>)
    requires
        rest.len() > 0 ==> !is_digit(rest[0]),
    ensures
        take_number(decimal(n) + rest) == Some((n, rest)),
        (decimal(n) + rest).len() > rest.len(),
{
    reveal(take_number);
    let a = decimal(n);
    numerals_stand_for_their_number(n);
    lemma_digit_count(a, rest);
    assert((a + rest).take(a.len() as int) =~= a);
    assert((a + rest).skip(a.len() as int) =~= rest);
}

pub(crate) proof fn lemma_take_field(key: Seq<char>, n: nat, rest: Seq<char>)
    requires
        rest.len() > 0 ==> !is_digit(rest[0]),
    ensures
        take_field(key + (decimal(n) + rest), key) == Some((n, rest)),
{
    reveal(take_field);
    lemma_take(key, decimal(n) + rest);
    lemma_take_number(n, rest);
}

/// The numbers of a list.
pub open spec fn values(ids: Seq<u32>) -> Seq<nat> {
    Seq::new(ids.len(), |i: int| ids[i] as nat)
}

proof fn lemma_numbers_first(ids: Seq<u32>)
    requires
        ids.len() > 0,
    ensures
        numbers(ids, " "@) == decimal(ids[0] as nat) + (if ids.len() > 1 {
            " "@ + numbers(ids.skip(1), " "@)
        } else {
            Seq::empty()
        }),
{
    let parts = Seq::new(ids.len(), |i: int| decimal(ids[i] as nat));
    if ids.len() > 1 {
        lemma_join_first(parts, " "@);
        assert(parts.skip(1) =~= Seq::new(
            ids.skip(1).len(),
            |i: int| decimal(ids.skip(1)[i] as nat),
        ));
        assert(numbers(ids, " "@) =~= decimal(ids[0] as nat) + (" "@ + numbers(ids.skip(1), " "@)));
    } else {
        assert(numbers(ids, " "@) =~= decimal(ids[0] as nat) + Seq::<char>::empty());
    }
}

proof fn lemma_take_numbers(ids: Seq<u32>, rest: Seq<char>)
    requires
        rest.len() > 0,
        !is_digit(rest[0]),
        rest[0] != ' ',
    ensures
        take_numbers(numbers(ids, " "@) + rest) == (values(ids), rest),
    decreases ids.len(),
{
    reveal(take_number);
    reveal_strlit(" ");
    let s = numbers(ids, " "@) + rest;
    if ids.len() == 0 {
        assert(s =~= rest);
        assert(digit_count(s) == 0);
        assert(values(ids) =~= Seq::<nat>::empty());
    } else {
        lemma_numbers_first(ids);
        let n = ids[0] as nat;
        if ids.len() == 1 {
            assert(s =~= decimal(n) + rest);
            lemma_take_number(n, rest);
            assert(values(ids) =~= seq![n]);
        } else {
            let more = numbers(ids.skip(1), " "@) + rest;
            let r = " "@ + more;
            assert(s =~= decimal(n) + r);
            lemma_take_number(n, r);
            assert(r.skip(1) =~= more);
            lemma_take_numbers(ids.skip(1), rest);
            assert(values(ids) =~= seq![n] + values(ids.skip(1)));
        }
    }
}

// ---------------------------------------------------------------------------
// Steps.
// ---------------------------------------------------------------------------
proof fn lemma_take_binding(m: Map<VarId, TermId>, v: VarId, rest: Seq<char>)
    ensures
        take_binding(binding_text(m, v) + rest) == Some(((v as nat, m[v] as nat), rest)),
        (binding_text(m, v) + rest).len() > rest.len(),
{
    reveal(take_binding);
    reveal_strlit("(");
    reveal_strlit(" ");
    reveal_strlit(")");
    let s = binding_text(m, v) + rest;
    let e = ")"@ + rest;
    let r = " "@ + (decimal(m[v] as nat) + e);
    assert(s =~= "("@ + (decimal(v as nat) + r));
    lemma_take_field("("@, v as nat, r);
    lemma_take_field(" "@, m[v] as nat, e);
    lemma_take(")"@, rest);
}

/// The bindings of some variables.
spec fn pairs_of(m: Map<VarId, TermId>, vars: Seq<VarId>) -> Seq<(nat, nat)> {
    Seq::new(vars.len(), |i: int| (vars[i] as nat, m[vars[i]] as nat))
}

spec fn binding_texts(m: Map<VarId, TermId>, vars: Seq<VarId>) -> Seq<Seq<char>> {
    Seq::new(vars.len(), |i: int| binding_text(m, vars[i]))
}

proof fn lemma_take_bindings(m: Map<VarId, TermId>, vars: Seq<VarId>, rest: Seq<char>)
    requires
        rest.len() > 0,
        rest[0] == ')',
    ensures
        take_bindings(join(binding_texts(m, vars), " "@) + rest) == (pairs_of(m, vars), rest),
    decreases vars.len(),
{
    reveal(take_binding);
    reveal_strlit(" ");
    reveal_strlit("(");
    let parts = binding_texts(m, vars);
    let s = join(parts, " "@) + rest;
    if vars.len() == 0 {
        assert(s =~= rest);
        lemma_take_not(s, "("@, 0);
        assert(pairs_of(m, vars) =~= Seq::empty());
    } else {
        let v = vars[0];
        if vars.len() == 1 {
            assert(s =~= binding_text(m, v) + rest);
            lemma_take_binding(m, v, rest);
            assert(pairs_of(m, vars) =~= seq![(v as nat, m[v] as nat)]);
        } else {
            lemma_join_first(parts, " "@);
            assert(parts.skip(1) =~= binding_texts(m, vars.skip(1)));
            let more = join(parts.skip(1), " "@) + rest;
            let r = " "@ + more;
            assert(s =~= binding_text(m, v) + r);
            lemma_take_binding(m, v, r);
            assert(r.skip(1) =~= more);
            lemma_take_bindings(m, vars.skip(1), rest);
            assert(pairs_of(m, vars) =~= seq![(v as nat, m[v] as nat)] + pairs_of(
                m,
                vars.skip(1),
            ));
        }
    }
}

#[verifier::rlimit(30)]
proof fn lemma_take_subst(m: Map<VarId, TermId>, rest: Seq<char>)
    ensures
        take_subst(subst_text(m) + rest) matches Some((ps, e)) && e == rest && binds(ps, m),
{
    reveal(take_subst);
    reveal_strlit(")");
    let vars = list_all(m.dom());
    let ps = pairs_of(m, vars);
    let parts = binding_texts(m, vars);
    let e = ")"@ + rest;
    let body = join(parts, " "@) + e;
    assert(Seq::new(vars.len(), |i: int| binding_text(m, vars[i])) =~= parts);
    assert(subst_text(m) + rest =~= "(subst "@ + body);
    lemma_take("(subst "@, body);
    lemma_take_bindings(m, vars, e);
    lemma_take(")"@, rest);
    lemma_list_below_members(m.dom(), (u32::MAX + 1) as nat);
    lemma_list_below_ascending(m.dom(), (u32::MAX + 1) as nat);
    assert forall|i: int| 0 <= i < ps.len() implies {
        &&& (#[trigger] ps[i]).0 <= u32::MAX
        &&& m.contains_key(ps[i].0 as VarId)
        &&& m[ps[i].0 as VarId] == ps[i].1
    } by {
        assert(vars.contains(vars[i]));
    }
    assert forall|v: VarId| #[trigger] m.contains_key(v) implies exists|i: int|
        0 <= i < ps.len() && (#[trigger] ps[i]).0 == v by {
        assert(vars.contains(v));
        let i = choose|i: int| 0 <= i < vars.len() && vars[i] == v;
        assert(ps[i].0 == v);
    }
    assert(ascending(vars));
}

/// Whether a text begins with a closing parenthesis.
spec fn closes(s: Seq<char>) -> bool {
    s.len() > 0 && s[0] == ')'
}

#[verifier::rlimit(30)]
proof fn lemma_group_four(
    a: Seq<char>,
    b: Seq<char>,
    c: Seq<char>,
    d: Seq<char>,
    e: Seq<char>,
    f: Seq<char>,
    g: Seq<char>,
    h: Seq<char>,
    i: Seq<char>,
    j: Seq<char>,
    k: Seq<char>,
    l: Seq<char>,
)
    ensures
        a + b + c + d + e + f + g + h + i + j + k + l == a + (b + (c + (d + (e + (f + (g + (h + (i
            + (j + (k + l)))))))))),
{
    let left = a + b + c + d + e;
    let end = i + (j + (k + l));
    assert(left + f + g + h + i + j + k + l =~= left + f + g + h + end);
    assert(left + f + g + h + end =~= left + (f + (g + (h + end))));
    assert(left + (f + (g + (h + end))) =~= a + (b + (c + (d + (e + (f + (g + (h + end))))))));
}

#[verifier::rlimit(30)]
proof fn lemma_take_resolution(
    left: u32,
    left_lit: nat,
    right: u32,
    right_lit: nat,
    unifier: Map<VarId, TermId>,
    text: Seq<char>,
    rest: Seq<char>,
)
    requires
        text == "(resolution (left "@ + decimal(left as nat) + ") (left_lit "@ + decimal(left_lit)
            + ") (right "@ + decimal(right as nat) + ") (right_lit "@ + decimal(right_lit) + ") "@
            + subst_text(unifier) + ")"@,
    ensures
        take_resolution(text + rest) matches Some((step, e)) && e == rest && (step
            matches Step::Resolution { left: l, left_lit: x, right: r, right_lit: y, subst } && l
            == left && x == left_lit && r == right && y == right_lit && binds(subst, unifier)),
{
    reveal(take_resolution);
    assert(closes(") (left_lit "@) && closes(") (right "@) && closes(") (right_lit "@) && closes(
        ") "@,
    )) by {
        reveal_strlit(") (left_lit ");
        reveal_strlit(") (right ");
        reveal_strlit(") (right_lit ");
        reveal_strlit(") ");
    }
    let r6 = ")"@ + rest;
    let r5 = subst_text(unifier) + r6;
    let r4 = ") "@ + r5;
    let r3 = ") (right_lit "@ + (decimal(right_lit) + r4);
    let r2 = ") (right "@ + (decimal(right as nat) + r3);
    let r1 = ") (left_lit "@ + (decimal(left_lit) + r2);
    lemma_group_four(
        "(resolution (left "@,
        decimal(left as nat),
        ") (left_lit "@,
        decimal(left_lit),
        ") (right "@,
        decimal(right as nat),
        ") (right_lit "@,
        decimal(right_lit),
        ") "@,
        subst_text(unifier),
        ")"@,
        rest,
    );
    lemma_take_field("(resolution (left "@, left as nat, r1);
    lemma_take_field(") (left_lit "@, left_lit, r2);
    lemma_take_field(") (right "@, right as nat, r3);
    lemma_take_field(") (right_lit "@, right_lit, r4);
    lemma_take(") "@, r5);
    lemma_take_subst(unifier, r6);
    lemma_take(")"@, rest);
}

proof fn lemma_group_three(
    a: Seq<char>,
    b: Seq<char>,
    c: Seq<char>,
    d: Seq<char>,
    e: Seq<char>,
    f: Seq<char>,
    g: Seq<char>,
    h: Seq<char>,
    i: Seq<char>,
    j: Seq<char>,
)
    ensures
        a + b + c + d + e + f + g + h + i + j == a + (b + (c + (d + (e + (f + (g + (h + (i
            + j)))))))),
{
    let left = a + b + c + d + e;
    let end = g + (h + (i + j));
    assert(left + f + g + h + i + j =~= left + f + end);
    assert(left + f + end =~= a + (b + (c + (d + (e + (f + end))))));
}

#[verifier::rlimit(30)]
proof fn lemma_take_factoring(
    parent: u32,
    lit_a: nat,
    lit_b: nat,
    unifier: Map<VarId, TermId>,
    text: Seq<char>,
    rest: Seq<char>,
)
    requires
        text == "(factoring (parent "@ + decimal(parent as nat) + ") (lit_a "@ + decimal(lit_a)
            + ") (lit_b "@ + decimal(lit_b) + ") "@ + subst_text(unifier) + ")"@,
    ensures
        take_factoring(text + rest) matches Some((step, e)) && e == rest && (step
            matches Step::Factoring { parent: p, lit_a: x, lit_b: y, subst } && p == parent && x
            == lit_a && y == lit_b && binds(subst, unifier)),
{
    reveal(take_factoring);
    assert(closes(") (lit_a "@) && closes(") (lit_b "@) && closes(") "@)) by {
        reveal_strlit(") (lit_a ");
        reveal_strlit(") (lit_b ");
        reveal_strlit(") ");
    }
    let r5 = ")"@ + rest;
    let r4 = subst_text(unifier) + r5;
    let r3 = ") "@ + r4;
    let r2 = ") (lit_b "@ + (decimal(lit_b) + r3);
    let r1 = ") (lit_a "@ + (decimal(lit_a) + r2);
    lemma_group_three(
        "(factoring (parent "@,
        decimal(parent as nat),
        ") (lit_a "@,
        decimal(lit_a),
        ") (lit_b "@,
        decimal(lit_b),
        ") "@,
        subst_text(unifier),
        ")"@,
        rest,
    );
    lemma_take_field("(factoring (parent "@, parent as nat, r1);
    lemma_take_field(") (lit_a "@, lit_a, r2);
    lemma_take_field(") (lit_b "@, lit_b, r3);
    lemma_take(") "@, r4);
    lemma_take_subst(unifier, r5);
    lemma_take(")"@, rest);
}

/// A step can be read back from its text, field by field: the parents, the
/// positions of the literals in them, and the bindings of the unifier.
#[verifier::rlimit(30)]
pub proof fn steps_can_be_read(rule: RuleView, rest: Seq<char>)
    requires
        is_step(rule),
    ensures
        take_step(rule_text(rule) + rest) matches Some((step, e)) && e == rest && tells(step, rule),
{
    reveal(take_step);
    reveal_strlit("(input)");
    let text = rule_text(rule);
    let s = text + rest;
    match rule {
        RuleView::Resolution { left, left_lit, right, right_lit, unifier } => {
            reveal_strlit("(resolution (left ");
            assert(s[1] == 'r');
            lemma_take_not(s, "(input)"@, 1);
            lemma_take_resolution(
                left,
                left_lit as nat,
                right,
                right_lit as nat,
                unifier,
                text,
                rest,
            );
        },
        RuleView::Factoring { parent, lit_a, lit_b, unifier } => {
            reveal_strlit("(factoring (parent ");
            reveal_strlit("(resolution (left ");
            assert(s[1] == 'f');
            lemma_take_not(s, "(input)"@, 1);
            lemma_take_not(s, "(resolution (left "@, 1);
            assert(take_resolution(s) is None) by {
                reveal(take_resolution);
            }
            lemma_take_factoring(parent, lit_a as nat, lit_b as nat, unifier, text, rest);
        },
        _ => {
            lemma_take("(input)"@, rest);
        },
    }
}

/// The text of a rule that the prover does not use is not that of a step.
pub proof fn reserved_rules_are_no_steps(rule: RuleView, rest: Seq<char>)
    requires
        !is_step(rule),
    ensures
        take_step(rule_text(rule) + rest) is None,
{
    reveal(take_step);
    reveal(take_resolution);
    reveal(take_factoring);
    let s = rule_text(rule) + rest;
    assert(s.len() > 1 && (s[1] == 's' || s[1] == 'e' || s[1] == 'd')) by {
        reveal_strlit("(superposition) ; TODO(v0.2)");
        reveal_strlit("(equality-resolution) ; TODO(v0.2)");
        reveal_strlit("(equality-factoring) ; TODO(v0.2)");
        reveal_strlit("(demodulation) ; TODO(v0.2)");
    }
    reveal_strlit("(input)");
    reveal_strlit("(resolution (left ");
    reveal_strlit("(factoring (parent ");
    lemma_take_not(s, "(input)"@, 1);
    lemma_take_not(s, "(resolution (left "@, 1);
    lemma_take_not(s, "(factoring (parent "@, 1);
}

// ---------------------------------------------------------------------------
// Names.
// ---------------------------------------------------------------------------
proof fn lemma_escaped_first(s: Seq<char>)
    requires
        s.len() > 0,
    ensures
        escaped(s) == (if s[0] == '\\' || s[0] == '"' {
            seq!['\\', s[0]]
        } else {
            seq![s[0]]
        }) + escaped(s.skip(1)),
    decreases s.len(),
{
    let first = if s[0] == '\\' || s[0] == '"' {
        seq!['\\', s[0]]
    } else {
        seq![s[0]]
    };
    if s.len() == 1 {
        assert(s.drop_last() =~= Seq::<char>::empty());
        assert(s.skip(1) =~= Seq::<char>::empty());
        assert(escaped(Seq::<char>::empty()) == Seq::<char>::empty());
        assert(escaped(s) =~= first + escaped(s.skip(1)));
    } else {
        lemma_escaped_first(s.drop_last());
        assert(s.drop_last()[0] == s[0]);
        assert(s.drop_last().skip(1) =~= s.skip(1).drop_last());
        assert(s.skip(1).last() == s.last());
        assert(escaped(s) =~= first + escaped(s.skip(1)));
    }
}

proof fn lemma_take_quoted(name: Seq<char>, rest: Seq<char>)
    ensures
        take_quoted(escaped(name) + (seq!['"'] + rest)) == (name, rest),
    decreases name.len(),
{
    let tail = seq!['"'] + rest;
    let s = escaped(name) + tail;
    if name.len() == 0 {
        assert(s =~= tail);
        assert(s.skip(1) =~= rest);
        assert(name =~= Seq::<char>::empty());
    } else {
        lemma_escaped_first(name);
        let more = escaped(name.skip(1)) + tail;
        lemma_take_quoted(name.skip(1), rest);
        if name[0] == '\\' || name[0] == '"' {
            assert(s =~= seq!['\\', name[0]] + more);
            assert(s.skip(2) =~= more);
        } else {
            assert(s =~= seq![name[0]] + more);
            assert(s.skip(1) =~= more);
        }
        assert(seq![name[0]] + name.skip(1) =~= name);
    }
}

proof fn lemma_bare_length(a: Seq<char>, rest: Seq<char>)
    requires
        forall|i: int| 0 <= i < a.len() ==> !delimits(#[trigger] a[i]),
        rest.len() > 0,
        delimits(rest[0]),
    ensures
        bare_length(a + rest) == a.len(),
    decreases a.len(),
{
    let s = a + rest;
    if a.len() > 0 {
        assert(s[0] == a[0]);
        assert(s.skip(1) =~= a.skip(1) + rest);
        assert forall|i: int| 0 <= i < a.skip(1).len() implies !delimits(
            #[trigger] a.skip(1)[i],
        ) by {
            assert(a.skip(1)[i] == a[i + 1]);
        }
        lemma_bare_length(a.skip(1), rest);
    } else {
        assert(s =~= rest);
    }
}

/// A name can be read back from its atom, whatever its characters, where white
/// space, a parenthesis, a quote or a semicolon follows.
pub proof fn atoms_can_be_read(name: Seq<char>, rest: Seq<char>)
    requires
        rest.len() > 0,
        delimits(rest[0]),
    ensures
        take_atom(atom_text(name) + rest) == (name, rest),
{
    reveal(take_atom);
    reveal_strlit("\"");
    let s = atom_text(name) + rest;
    if name.len() == 0 || exists|i: int| 0 <= i < name.len() && delimits(#[trigger] name[i]) {
        let tail = seq!['"'] + rest;
        assert("\""@ =~= seq!['"']);
        assert(s =~= seq!['"'] + (escaped(name) + tail));
        assert(s.skip(1) =~= escaped(name) + tail);
        lemma_take_quoted(name, rest);
    } else {
        assert forall|i: int| 0 <= i < name.len() implies !delimits(#[trigger] name[i]) by {}
        assert(s == name + rest);
        assert(s[0] == name[0]);
        assert(!delimits(name[0]));
        lemma_bare_length(name, rest);
        assert(s.take(name.len() as int) =~= name);
        assert(s.skip(name.len() as int) =~= rest);
    }
}

// ---------------------------------------------------------------------------
// Lines.
// ---------------------------------------------------------------------------
#[verifier::rlimit(30)]
proof fn lemma_take_symbol(n: SymbolId, label: Seq<char>, rest: Seq<char>)
    ensures
        take_symbol(symbol_line(n, label) + rest) == Some(((n as nat, label), rest)),
        (symbol_line(n, label) + rest).len() > rest.len(),
{
    reveal_strlit(")\n");
    reveal_strlit(" ");
    reveal(take_symbol);
    let r2 = ")\n"@ + rest;
    let r1 = " "@ + (atom_text(label) + r2);
    let s = symbol_line(n, label) + rest;
    assert(s =~= "    ("@ + (decimal(n as nat) + r1));
    lemma_take_field("    ("@, n as nat, r1);
    lemma_take(" "@, atom_text(label) + r2);
    atoms_can_be_read(label, r2);
    lemma_take(")\n"@, rest);
}

/// What ends a list of lines.
spec fn ends_lines(rest: Seq<char>) -> bool {
    rest.len() > 2 && rest[2] == ')'
}

proof fn lemma_no_line(rest: Seq<char>)
    requires
        ends_lines(rest),
    ensures
        take_symbol(rest) is None,
        take_term(rest) is None,
        take_clause(rest) is None,
{
    reveal_strlit("    (");
    reveal_strlit("    (clause ");
    reveal(take_symbol);
    reveal(take_term);
    reveal(take_clause);
    lemma_take_not(rest, "    ("@, 2);
    lemma_take_not(rest, "    (clause "@, 2);
}

/// The lines of the symbols from position `k` on.
proof fn lemma_take_symbols(
    syms: Seq<SymbolId>,
    labels: Seq<Seq<char>>,
    k: nat,
    rest: Seq<char>,
) -> (tail: Seq<char>)
    requires
        k <= syms.len() == labels.len(),
        ends_lines(rest),
    ensures
        symbol_lines(syms, labels, syms.len()) == symbol_lines(syms, labels, k) + tail,
        take_symbols(tail + rest) == (
            Seq::new((syms.len() - k) as nat, |i: int| (syms[k + i] as nat, labels[k + i])),
            rest,
        ),
    decreases syms.len() - k,
{
    let xs = Seq::new((syms.len() - k) as nat, |i: int| (syms[k + i] as nat, labels[k + i]));
    if k == syms.len() {
        let tail = Seq::<char>::empty();
        assert(tail + rest =~= rest);
        lemma_no_line(rest);
        assert(symbol_lines(syms, labels, k) + tail =~= symbol_lines(syms, labels, k));
        assert(xs =~= Seq::empty());
        tail
    } else {
        let more = lemma_take_symbols(syms, labels, k + 1, rest);
        let line = symbol_line(syms[k as int], labels[k as int]);
        let tail = line + more;
        lemma_take_symbol(syms[k as int], labels[k as int], more + rest);
        assert(tail + rest =~= line + (more + rest));
        assert(symbol_lines(syms, labels, k) + tail =~= symbol_lines(syms, labels, k) + line
            + more);
        assert(xs =~= seq![(syms[k as int] as nat, labels[k as int])] + Seq::new(
            (syms.len() - (k + 1)) as nat,
            |i: int| (syms[k + 1 + i] as nat, labels[k + 1 + i]),
        ));
        tail
    }
}

#[verifier::rlimit(30)]
proof fn lemma_take_term(arena: &TermArena, t: TermId, rest: Seq<char>)
    ensures
        take_term(term_line(arena, t) + rest) matches Some(((n, x), e)) && n == t && e == rest
            && says_term(x, arena.node(t)),
        (term_line(arena, t) + rest).len() > rest.len(),
{
    reveal_strlit(" (var ");
    reveal_strlit(" (app ");
    reveal_strlit("))\n");
    reveal_strlit(")))\n");
    reveal_strlit(" (");
    reveal(take_term);
    let s = term_line(arena, t) + rest;
    match arena.node(t) {
        Node::Var(v) => {
            let r2 = "))\n"@ + rest;
            let r1 = " (var "@ + (decimal(v as nat) + r2);
            assert(s =~= "    ("@ + (decimal(t as nat) + r1));
            lemma_take_field("    ("@, t as nat, r1);
            lemma_take_field(" (var "@, v as nat, r2);
            lemma_take("))\n"@, rest);
        },
        Node::App(f, args) => {
            let r3 = ")))\n"@ + rest;
            let list = numbers(args, " "@) + r3;
            let r2 = " ("@ + list;
            let r1 = " (app "@ + (decimal(f as nat) + r2);
            assert(s =~= "    ("@ + (decimal(t as nat) + r1));
            lemma_take_field("    ("@, t as nat, r1);
            lemma_take_not(r1, " (var "@, 2);
            lemma_take_field(" (app "@, f as nat, r2);
            lemma_take(" ("@, list);
            lemma_take_numbers(args, r3);
            lemma_take(")))\n"@, rest);
        },
    }
}

/// The lines of the terms from position `k` on.
proof fn lemma_take_terms(
    arena: &TermArena,
    terms: Seq<TermId>,
    k: nat,
    rest: Seq<char>,
) -> (tail: Seq<char>)
    requires
        k <= terms.len(),
        ends_lines(rest),
    ensures
        term_lines(arena, terms, terms.len()) == term_lines(arena, terms, k) + tail,
        take_terms(tail + rest).1 == rest,
        take_terms(tail + rest).0.len() == terms.len() - k,
        forall|i: int|
            0 <= i < terms.len() - k ==> (#[trigger] take_terms(tail + rest).0[i]).0 == terms[k + i]
                && says_term(take_terms(tail + rest).0[i].1, arena.node(terms[k + i])),
    decreases terms.len() - k,
{
    if k == terms.len() {
        let tail = Seq::<char>::empty();
        assert(tail + rest =~= rest);
        lemma_no_line(rest);
        assert(term_lines(arena, terms, k) + tail =~= term_lines(arena, terms, k));
        tail
    } else {
        let more = lemma_take_terms(arena, terms, k + 1, rest);
        let line = term_line(arena, terms[k as int]);
        let tail = line + more;
        lemma_take_term(arena, terms[k as int], more + rest);
        assert(tail + rest =~= line + (more + rest));
        assert(term_lines(arena, terms, k) + tail =~= term_lines(arena, terms, k) + line + more);
        let xs = take_terms(tail + rest).0;
        let ys = take_terms(more + rest).0;
        assert forall|i: int| 0 <= i < terms.len() - k implies (#[trigger] xs[i]).0 == terms[k + i]
            && says_term(xs[i].1, arena.node(terms[k + i])) by {
            if i > 0 {
                assert(xs[i] == ys[i - 1]);
                assert(terms[k + 1 + (i - 1)] == terms[k + i]);
            }
        }
        tail
    }
}

proof fn lemma_take_unsigned(l: LitIds, text: Seq<char>, rest: Seq<char>)
    requires
        text == " "@ + decimal(l.predicate as nat) + " ("@ + numbers(l.args, " "@) + "))\n"@,
    ensures
        take_unsigned(text + rest, l.positive) matches Some((x, e)) && e == rest && says_literal(
            x,
            l,
        ),
{
    reveal(take_unsigned);
    reveal_strlit(" (");
    reveal_strlit("))\n");
    let r2 = "))\n"@ + rest;
    let list = numbers(l.args, " "@) + r2;
    let r1 = " ("@ + list;
    assert(text + rest =~= " "@ + (decimal(l.predicate as nat) + r1));
    lemma_take_field(" "@, l.predicate as nat, r1);
    lemma_take(" ("@, list);
    lemma_take_numbers(l.args, r2);
    lemma_take("))\n"@, rest);
}

#[verifier::rlimit(30)]
proof fn lemma_take_literal(l: LitIds, rest: Seq<char>)
    ensures
        take_literal(literal_line(l) + rest) matches Some((x, e)) && e == rest && says_literal(
            x,
            l,
        ),
        (literal_line(l) + rest).len() > rest.len(),
{
    reveal(take_literal);
    reveal_strlit("pos");
    reveal_strlit("neg");
    reveal_strlit("        (");
    let body = " "@ + decimal(l.predicate as nat) + " ("@ + numbers(l.args, " "@) + "))\n"@;
    let sign = if l.positive {
        "pos"@
    } else {
        "neg"@
    };
    let s = literal_line(l) + rest;
    assert(s =~= "        ("@ + (sign + (body + rest)));
    lemma_take("        ("@, sign + (body + rest));
    lemma_take(sign, body + rest);
    if !l.positive {
        lemma_take_not(sign + (body + rest), "pos"@, 0);
    }
    lemma_take_unsigned(l, body, rest);
}

/// The lines of the literals from position `k` on.
proof fn lemma_take_literals(ls: Seq<LitIds>, k: nat, rest: Seq<char>) -> (tail: Seq<char>)
    requires
        k <= ls.len(),
        rest.len() > 6,
        rest[6] == ')',
    ensures
        literal_lines(ls, ls.len()) == literal_lines(ls, k) + tail,
        take_literals(tail + rest).1 == rest,
        take_literals(tail + rest).0.len() == ls.len() - k,
        forall|i: int|
            0 <= i < ls.len() - k ==> says_literal(
                #[trigger] take_literals(tail + rest).0[i],
                ls[k + i],
            ),
    decreases ls.len() - k,
{
    reveal(take_literal);
    if k == ls.len() {
        reveal_strlit("        (");
        let tail = Seq::<char>::empty();
        assert(tail + rest =~= rest);
        lemma_take_not(rest, "        ("@, 6);
        assert(literal_lines(ls, k) + tail =~= literal_lines(ls, k));
        tail
    } else {
        let more = lemma_take_literals(ls, k + 1, rest);
        let line = literal_line(ls[k as int]);
        let tail = line + more;
        lemma_take_literal(ls[k as int], more + rest);
        assert(tail + rest =~= line + (more + rest));
        assert(literal_lines(ls, k) + tail =~= literal_lines(ls, k) + line + more);
        let xs = take_literals(tail + rest).0;
        let ys = take_literals(more + rest).0;
        assert forall|i: int| 0 <= i < ls.len() - k implies says_literal(
            #[trigger] xs[i],
            ls[k + i],
        ) by {
            if i > 0 {
                assert(xs[i] == ys[i - 1]);
                assert(ls[k + 1 + (i - 1)] == ls[k + i]);
            }
        }
        tail
    }
}

/// The text of the literals of a clause.
spec fn body_text(ls: Seq<LitIds>) -> Seq<char> {
    if ls.len() == 0 {
        "      (literals)\n"@
    } else {
        "      (literals\n"@ + literal_lines(ls, ls.len()) + "      )\n"@
    }
}

#[verifier::rlimit(30)]
proof fn lemma_take_body(ls: Seq<LitIds>, rest: Seq<char>)
    ensures
        take_body(body_text(ls) + rest) matches Some((xs, e)) && e == rest && xs.len() == ls.len()
            && forall|i: int| 0 <= i < ls.len() ==> says_literal(#[trigger] xs[i], ls[i]),
{
    reveal(take_body);
    if ls.len() == 0 {
        lemma_take("      (literals)\n"@, rest);
    } else {
        let r2 = "      )\n"@ + rest;
        assert(r2.len() > 6 && r2[6] == ')') by {
            reveal_strlit("      )\n");
        }
        let tail = lemma_take_literals(ls, 0, r2);
        assert(literal_lines(ls, 0) + tail =~= tail);
        let r1 = tail + r2;
        let s = body_text(ls) + rest;
        assert(s =~= "      (literals\n"@ + r1);
        assert(take_text(s, "      (literals)\n"@) is None) by {
            reveal_strlit("      (literals)\n");
            reveal_strlit("      (literals\n");
            assert(s[15] == "      (literals\n"@[15]);
            lemma_take_not(s, "      (literals)\n"@, 15);
        }
        lemma_take("      (literals\n"@, r1);
        lemma_take("      )\n"@, rest);
        let xs = take_literals(tail + r2).0;
        assert forall|i: int| 0 <= i < ls.len() implies says_literal(#[trigger] xs[i], ls[i]) by {
            assert(says_literal(take_literals(tail + r2).0[i], ls[0nat + i]));
        }
    }
}

proof fn lemma_group_clause(
    a: Seq<char>,
    b: Seq<char>,
    c: Seq<char>,
    d: Seq<char>,
    e: Seq<char>,
    f: Seq<char>,
    g: Seq<char>,
    l: Seq<char>,
)
    ensures
        a + b + c + d + e + f + c + g + l == a + (b + (c + (d + (e + (f + ((c + g) + l)))))),
{
    let end = (c + g) + l;
    assert(a + b + c + d + e + f + c + g + l =~= a + b + c + d + e + f + end);
    assert(a + b + c + d + e + f + end =~= a + (b + (c + (d + (e + (f + end))))));
}

#[verifier::rlimit(30)]
proof fn lemma_take_clause(c: ClauseView, rest: Seq<char>)
    requires
        is_step(c.inference.rule),
    ensures
        take_clause(clause_block(c) + rest) matches Some((x, e)) && e == rest && says_clause(x, c),
        (clause_block(c) + rest).len() > rest.len(),
{
    let rule = c.inference.rule;
    let r4 = "\n    )\n"@ + rest;
    let r3 = rule_text(rule) + r4;
    let r2 = "      "@ + r3;
    let r1 = body_text(c.literals) + r2;
    let r0 = "\n"@ + r1;
    let s = clause_block(c) + rest;
    assert("\n    )\n"@ =~= "\n"@ + "    )\n"@ && "\n"@.len() == 1 && "\n"@[0] == '\n') by {
        reveal_strlit("\n");
        reveal_strlit("    )\n");
        reveal_strlit("\n    )\n");
    }
    lemma_group_clause(
        "    (clause "@,
        decimal(c.id as nat),
        "\n"@,
        body_text(c.literals),
        "      "@,
        rule_text(rule),
        "    )\n"@,
        rest,
    );
    assert(s == "    (clause "@ + (decimal(c.id as nat) + r0));
    lemma_take_field("    (clause "@, c.id as nat, r0);
    lemma_take("\n"@, r1);
    lemma_take_body(c.literals, r2);
    lemma_take("      "@, r3);
    steps_can_be_read(rule, r4);
    lemma_take("\n    )\n"@, rest);
    reveal(take_clause);
}

/// The lines of the clauses from position `k` on.
proof fn lemma_take_clauses(cs: Seq<ClauseView>, k: nat, rest: Seq<char>) -> (tail: Seq<char>)
    requires
        k <= cs.len(),
        ends_lines(rest),
        forall|i: int| 0 <= i < cs.len() ==> is_step((#[trigger] cs[i]).inference.rule),
    ensures
        clause_blocks(cs, cs.len()) == clause_blocks(cs, k) + tail,
        take_clauses(tail + rest).1 == rest,
        take_clauses(tail + rest).0.len() == cs.len() - k,
        forall|i: int|
            0 <= i < cs.len() - k ==> says_clause(
                #[trigger] take_clauses(tail + rest).0[i],
                cs[k + i],
            ),
    decreases cs.len() - k,
{
    if k == cs.len() {
        let tail = Seq::<char>::empty();
        assert(tail + rest =~= rest);
        lemma_no_line(rest);
        assert(clause_blocks(cs, k) + tail =~= clause_blocks(cs, k));
        tail
    } else {
        let more = lemma_take_clauses(cs, k + 1, rest);
        let line = clause_block(cs[k as int]);
        let tail = line + more;
        lemma_take_clause(cs[k as int], more + rest);
        assert(tail + rest =~= line + (more + rest));
        assert(clause_blocks(cs, k) + tail =~= clause_blocks(cs, k) + line + more);
        let xs = take_clauses(tail + rest).0;
        let ys = take_clauses(more + rest).0;
        assert forall|i: int| 0 <= i < cs.len() - k implies says_clause(
            #[trigger] xs[i],
            cs[k + i],
        ) by {
            if i > 0 {
                assert(xs[i] == ys[i - 1]);
                assert(cs[k + 1 + (i - 1)] == cs[k + i]);
            }
        }
        tail
    }
}

/// What follows the symbols of a certificate, from the end.
spec fn tail_text(
    cs: Seq<ClauseView>,
    arena: &TermArena,
    labels: Seq<Seq<char>>,
    part: nat,
) -> Seq<char> {
    let syms = needed_symbols(cs, arena);
    let terms = needed_terms(cs, arena);
    let root = "  )\n  (root "@ + (decimal(cs.last().id as nat) + ")\n)\n"@);
    let clauses = "  )\n  (clauses\n"@ + (clause_blocks(cs, cs.len()) + root);
    let rest = "  )\n  (terms\n"@ + (term_lines(arena, terms, terms.len()) + clauses);
    let symbols = "  (symbols\n"@ + (symbol_lines(syms, labels, syms.len()) + rest);
    if part == 0 {
        root
    } else if part == 1 {
        clauses
    } else if part == 2 {
        rest
    } else {
        symbols
    }
}

#[verifier::rlimit(30)]
proof fn lemma_text_split(cs: Seq<ClauseView>, arena: &TermArena, labels: Seq<Seq<char>>)
    ensures
        beardag_text(cs, arena, labels)
            == ";; .beardag v1 — generated certificate, do not hand-edit\n"@ + (
        "(beardag\n  (version 1)\n"@ + tail_text(cs, arena, labels, 3)),
        ends_lines(tail_text(cs, arena, labels, 0)),
        ends_lines(tail_text(cs, arena, labels, 1)),
        ends_lines(tail_text(cs, arena, labels, 2)),
{
    reveal_strlit("  )\n");
    reveal_strlit(")\n");
    reveal_strlit(")\n)\n");
    reveal_strlit("(beardag\n");
    reveal_strlit("  (version 1)\n");
    reveal_strlit("(beardag\n  (version 1)\n");
    reveal_strlit("  (terms\n");
    reveal_strlit("  )\n  (terms\n");
    reveal_strlit("  (clauses\n");
    reveal_strlit("  )\n  (clauses\n");
    reveal_strlit("  (root ");
    reveal_strlit("  )\n  (root ");
    assert("(beardag\n  (version 1)\n"@ =~= "(beardag\n"@ + "  (version 1)\n"@);
    assert("  )\n  (terms\n"@ =~= "  )\n"@ + "  (terms\n"@);
    assert("  )\n  (clauses\n"@ =~= "  )\n"@ + "  (clauses\n"@);
    assert("  )\n  (root "@ =~= "  )\n"@ + "  (root "@);
    assert(")\n)\n"@ =~= ")\n"@ + ")\n"@);
    lemma_regroup(
        ";; .beardag v1 — generated certificate, do not hand-edit\n"@,
        "(beardag\n"@,
        "  (version 1)\n"@,
        "  (symbols\n"@,
        symbol_lines(needed_symbols(cs, arena), labels, needed_symbols(cs, arena).len()),
        "  )\n"@,
        "  (terms\n"@,
        term_lines(arena, needed_terms(cs, arena), needed_terms(cs, arena).len()),
        "  (clauses\n"@,
        clause_blocks(cs, cs.len()),
        "  (root "@,
        decimal(cs.last().id as nat),
        ")\n"@,
    );
}

#[verifier::rlimit(30)]
proof fn lemma_regroup(
    a: Seq<char>,
    b: Seq<char>,
    c: Seq<char>,
    d: Seq<char>,
    e: Seq<char>,
    f: Seq<char>,
    g: Seq<char>,
    h: Seq<char>,
    i: Seq<char>,
    j: Seq<char>,
    k: Seq<char>,
    l: Seq<char>,
    m: Seq<char>,
)
    ensures
        a + b + c + d + e + f + g + h + f + i + j + f + k + l + m + m == a + ((b + c) + (d + (e + ((
        f + g) + (h + ((f + i) + (j + ((f + k) + (l + (m + m)))))))))),
{
    let end = (f + k) + (l + (m + m));
    let p1 = (f + i) + (j + end);
    let p2 = (f + g) + (h + p1);
    let left = a + b + c + d + e;
    assert(left + f + g + h + f + i + j + f + k + l + m + m =~= left + f + g + h + f + i + j + end);
    assert(left + f + g + h + f + i + j + end =~= left + f + g + h + p1);
    assert(left + f + g + h + p1 =~= left + p2);
    assert(left + p2 =~= a + ((b + c) + (d + (e + p2))));
}

/// A certificate can be read back from its text: every symbol with its name,
/// every term with its arguments, every clause with its literals and the step
/// that derives it, and the empty clause at its root.
#[verifier::rlimit(30)]
pub proof fn certificates_can_be_read(
    cs: Seq<ClauseView>,
    arena: &TermArena,
    labels: Seq<Seq<char>>,
)
    requires
        labels.len() == needed_symbols(cs, arena).len(),
        forall|i: int| 0 <= i < cs.len() ==> is_step((#[trigger] cs[i]).inference.rule),
    ensures
        read_certificate(beardag_text(cs, arena, labels)) matches Some(x) && certifies(
            x,
            cs,
            arena,
            labels,
        ),
{
    let syms = needed_symbols(cs, arena);
    let terms = needed_terms(cs, arena);
    let id = cs.last().id as nat;
    let r4 = tail_text(cs, arena, labels, 0);
    let r3 = tail_text(cs, arena, labels, 1);
    let r2 = tail_text(cs, arena, labels, 2);
    let r1 = tail_text(cs, arena, labels, 3);
    lemma_text_split(cs, arena, labels);
    let t3 = lemma_take_clauses(cs, 0, r4);
    assert(clause_blocks(cs, 0) + t3 =~= t3);
    let t2 = lemma_take_terms(arena, terms, 0, r3);
    assert(term_lines(arena, terms, 0) + t2 =~= t2);
    let t1 = lemma_take_symbols(syms, labels, 0, r2);
    assert(symbol_lines(syms, labels, 0) + t1 =~= t1);
    let head = "(beardag\n  (version 1)\n"@;
    lemma_take(";; .beardag v1 — generated certificate, do not hand-edit\n"@, head + r1);
    lemma_take(head, r1);
    lemma_take("  (symbols\n"@, t1 + r2);
    lemma_take("  )\n  (terms\n"@, t2 + r3);
    lemma_take("  )\n  (clauses\n"@, t3 + r4);
    assert(!is_digit(")\n)\n"@[0])) by {
        reveal_strlit(")\n)\n");
    }
    lemma_take_field("  )\n  (root "@, id, ")\n)\n"@);
    let xt = take_terms(t2 + r3).0;
    let xc = take_clauses(t3 + r4).0;
    assert forall|i: int| 0 <= i < terms.len() implies (#[trigger] xt[i]).0 == terms[i]
        && says_term(xt[i].1, arena.node(terms[i])) by {
        assert(take_terms(t2 + r3).0[i].0 == terms[0nat + i]);
    }
    assert forall|i: int| 0 <= i < cs.len() implies says_clause(#[trigger] xc[i], cs[i]) by {
        assert(says_clause(take_clauses(t3 + r4).0[i], cs[0nat + i]));
    }
}

} // verus!
