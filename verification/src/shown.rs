//! The texts of terms, literals and clauses: what stands in them, and that a
//! clause can be read back from its text.
use crate::clause::{clause_text, inst_lits, lit_named, lit_text, Lit};
use crate::lists::Nest;
use crate::parser::Known;
use crate::reading::{denotes, names_variable};
use crate::statements::{
    args_toks, bit_fits, bit_text, bits_fit, bits_text, bits_toks, formula_order, formula_toks,
    gathered, header_toks, in_name, is_applied, is_bare, is_signed, is_statement, mark_chars,
    signed_denotes, signed_toks, statement_denotes, statement_toks, statements_are_read_as_written,
    statements_toks, states, term_toks, Bit, Signed, Statement,
};
use crate::term::{lemma_named_args, named, term_text, terms_text, SymbolId, VarId};
use crate::text::{
    decimal, is_digit, join, lemma_join_first, numerals_are_unambiguous,
    numerals_stand_for_their_number,
};
use crate::tptp::{plain_text, tptp_problem_of, Mark, Tok};
use crate::tree::{Assignment, Tree};
use vstd::prelude::*;

verus! {

/// The texts of terms.
pub open spec fn texts(ts: Seq<Tree>, names: Seq<Seq<char>>) -> Seq<Seq<char>> {
    Seq::new(ts.len(), |i: int| term_text(ts[i], names))
}

proof fn lemma_terms_text(ts: Seq<Tree>, k: nat, names: Seq<Seq<char>>)
    requires
        k <= ts.len(),
    ensures
        terms_text(ts, k, names) == join(texts(ts, names).take(k as int), ", "@),
    decreases k,
{
    let all = texts(ts, names);
    let parts = all.take(k as int);
    if k == 1 {
        assert(parts[0] == term_text(ts[0], names));
    } else if k > 1 {
        lemma_terms_text(ts, (k - 1) as nat, names);
        assert(parts.drop_last() =~= all.take(k - 1));
        assert(parts.last() == term_text(ts[k - 1], names));
    }
}

/// The text of a term: a variable is `X` and its number; an application is the
/// name of its symbol and, where it has arguments, all of them in order, in
/// parentheses with commas between them.
pub proof fn terms_show_their_arguments(t: Tree, names: Seq<Seq<char>>)
    ensures
        match t {
            Tree::Var(v) => term_text(t, names) == "X"@ + decimal(v as nat),
            Tree::App(f, args) => term_text(t, names) == if args.len() == 0 {
                names[f as int]
            } else {
                names[f as int] + "("@ + join(texts(args, names), ", "@) + ")"@
            },
        },
{
    if let Tree::App(_, args) = t {
        lemma_terms_text(args, args.len(), names);
        assert(texts(args, names).take(args.len() as int) =~= texts(args, names));
    }
}

/// The text of a literal is that of its predicate applied to its arguments,
/// with `~` before it where the literal is negative.
pub proof fn literals_show_their_sign(l: Lit, names: Seq<Seq<char>>)
    ensures
        l.positive ==> lit_text(l, names) == term_text(Tree::App(l.predicate, l.args), names),
        !l.positive ==> lit_text(l, names) == "~"@ + term_text(
            Tree::App(l.predicate, l.args),
            names,
        ),
{
    let t = Tree::App(l.predicate, l.args);
    assert(t->App_1 == l.args);
    assert(Seq::<char>::empty() + term_text(t, names) =~= term_text(t, names));
}

/// The text of a clause is those of all its literals in order, with bars
/// between them.
pub proof fn clauses_show_their_literals(ls: Seq<Lit>, names: Seq<Seq<char>>)
    ensures
        ls.len() == 0 ==> clause_text(ls, names) == "⊥"@,
        ls.len() > 0 ==> clause_text(ls, names) == join(
            Seq::new(ls.len(), |i: int| lit_text(ls[i], names)),
            " | "@,
        ),
{
}

// ---------------------------------------------------------------------------
// Reading a clause back.
// ---------------------------------------------------------------------------
/// Whether every name can stand bare in a formula, and is not that of a
/// variable.
pub open spec fn plain_names(names: Seq<Seq<char>>) -> bool {
    forall|i: int| 0 <= i < names.len() ==> is_bare(#[trigger] names[i]) && !names_variable(names[i])
}

/// A term with its names.
pub open spec fn shown(t: Tree, names: Seq<Seq<char>>) -> Nest
    decreases t,
{
    match t {
        Tree::Var(v) => Nest::Name("X"@ + decimal(v as nat)),
        Tree::App(f, args) => if args.len() == 0 {
            Nest::Name(names[f as int])
        } else {
            Nest::List(
                Seq::new(
                    args.len() + 1,
                    |i: int|
                        if 1 <= i <= args.len() {
                            shown(args[i - 1], names)
                        } else {
                            Nest::Name(names[f as int])
                        },
                ),
            )
        },
    }
}

/// A symbol and its arguments with their names.
spec fn shown_items(f: SymbolId, args: Seq<Tree>, names: Seq<Seq<char>>) -> Seq<Nest> {
    Seq::new(
        args.len() + 1,
        |i: int|
            if 1 <= i <= args.len() {
                shown(args[i - 1], names)
            } else {
                Nest::Name(names[f as int])
            },
    )
}

proof fn lemma_shown_app(f: SymbolId, args: Seq<Tree>, names: Seq<Seq<char>>)
    requires
        args.len() > 0,
    ensures
        shown(Tree::App(f, args), names) == Nest::List(shown_items(f, args, names)),
{
    let t = Tree::App(f, args);
    assert(t->App_1 == args);
    assert(shown(t, names)->List_0 =~= shown_items(f, args, names));
}

/// The literals with their names.
pub open spec fn shown_literals(ls: Seq<Lit>, names: Seq<Seq<char>>) -> Seq<Signed> {
    Seq::new(
        ls.len(),
        |i: int|
            Signed {
                positive: ls[i].positive,
                atom: shown(Tree::App(ls[i].predicate, ls[i].args), names),
            },
    )
}

proof fn lemma_bits_concat(a: Seq<Bit>, b: Seq<Bit>)
    ensures
        bits_text(a + b) == bits_text(a) + bits_text(b),
        bits_toks(a + b) == bits_toks(a) + bits_toks(b),
    decreases a.len(),
{
    if a.len() == 0 {
        assert(a + b =~= b);
        assert(bits_text(a) + bits_text(b) =~= bits_text(b));
        assert(bits_toks(a) + bits_toks(b) =~= bits_toks(b));
    } else {
        assert((a + b).skip(1) =~= a.skip(1) + b);
        assert((a + b)[0] == a[0]);
        lemma_bits_concat(a.skip(1), b);
        assert(bits_text(a + b) =~= bits_text(a) + bits_text(b));
        assert(bits_toks(a + b) =~= bits_toks(a) + bits_toks(b));
    }
}

/// Pieces without comments, of which none but marks stand at the ends where
/// they meet others, can be put together.
proof fn lemma_bits_join(a: Seq<Bit>, b: Seq<Bit>)
    requires
        bits_fit(a),
        bits_fit(b),
        a.len() > 0 ==> !(a.last() is Remark),
        a.len() > 0 && b.len() > 0 ==> !(a.last() is Name) || !(b[0] is Name),
    ensures
        bits_fit(a + b),
        bits_text(a + b) == bits_text(a) + bits_text(b),
        bits_toks(a + b) == bits_toks(a) + bits_toks(b),
{
    let c = a + b;
    lemma_bits_concat(a, b);
    assert forall|i: int| 0 <= i < c.len() implies bit_fits(#[trigger] c[i]) by {
        if i < a.len() {
            assert(c[i] == a[i]);
        } else {
            assert(c[i] == b[i - a.len()]);
        }
    }
    assert forall|i: int| 0 <= i < c.len() - 1 implies {
        &&& (#[trigger] c[i]) is Remark ==> c[i + 1] == Bit::White('\n')
        &&& c[i] is Name ==> !(c[i + 1] is Name)
    } by {
        if i < a.len() - 1 {
            assert(c[i] == a[i] && c[i + 1] == a[i + 1]);
        } else if i >= a.len() {
            assert(c[i] == b[i - a.len()] && c[i + 1] == b[i - a.len() + 1]);
        } else {
            assert(c[i] == a.last() && c[i + 1] == b[0]);
        }
    }
}

proof fn lemma_one_bit(p: Bit)
    requires
        bit_fits(p),
    ensures
        bits_fit(seq![p]),
        bits_text(seq![p]) == bit_text(p),
        bits_toks(seq![p]) == match p {
            Bit::Mark(m) => seq![Tok::Punct(m)],
            Bit::Name(n) => seq![Tok::Ident(n)],
            Bit::Quoted(n) => seq![Tok::Ident(n)],
            _ => Seq::empty(),
        },
{
    let ps = seq![p];
    assert(ps.skip(1) =~= Seq::<Bit>::empty());
    assert(bits_text(Seq::<Bit>::empty()) =~= Seq::<char>::empty());
    assert(bits_toks(Seq::<Bit>::empty()) =~= Seq::<Tok>::empty());
    assert(bits_text(ps) =~= bit_text(p));
    assert(bits_toks(ps) =~= match p {
        Bit::Mark(m) => seq![Tok::Punct(m)],
        Bit::Name(n) => seq![Tok::Ident(n)],
        Bit::Quoted(n) => seq![Tok::Ident(n)],
        _ => Seq::empty(),
    });
}

/// What the pieces of a term or a literal are.
spec fn spells(ps: Seq<Bit>, text: Seq<char>, toks: Seq<Tok>) -> bool {
    &&& bits_fit(ps)
    &&& bits_text(ps) == text
    &&& bits_toks(ps) == toks
    &&& ps.len() > 0
    &&& !(ps.last() is Remark)
}

/// Pieces, then a mark, then pieces.
proof fn lemma_spells_then(
    a: Seq<Bit>,
    ta: Seq<char>,
    ka: Seq<Tok>,
    b: Seq<Bit>,
    tb: Seq<char>,
    kb: Seq<Tok>,
)
    requires
        spells(a, ta, ka),
        spells(b, tb, kb),
        !(a.last() is Name) || !(b[0] is Name),
    ensures
        spells(a + b, ta + tb, ka + kb),
        (a + b)[0] == a[0],
        (a + b).last() == b.last(),
{
    lemma_bits_join(a, b);
}

proof fn lemma_variable_name(v: VarId)
    ensures
        is_bare("X"@ + decimal(v as nat)),
        names_variable("X"@ + decimal(v as nat)),
{
    reveal_strlit("X");
    let n = "X"@ + decimal(v as nat);
    numerals_stand_for_their_number(v as nat);
    assert forall|k: int| 0 <= k < n.len() implies in_name(#[trigger] n[k]) && n[k] != '/' by {
        if k > 0 {
            assert(n[k] == decimal(v as nat)[k - 1]);
            assert(is_digit(n[k]));
        }
    }
    assert(n[0] == 'X');
}

/// The pieces of a mark with white space after it, or none.
proof fn lemma_mark(m: Mark, text: Seq<char>) -> (ps: Seq<Bit>)
    requires
        text == mark_chars(m) || text == mark_chars(m) + seq![' '] || text == seq![' ']
            + mark_chars(m) + seq![' '],
    ensures
        spells(ps, text, seq![Tok::Punct(m)]),
        !(ps[0] is Name),
        !(ps.last() is Name),
{
    let a = Bit::Mark(m);
    let w = Bit::White(' ');
    lemma_one_bit(a);
    lemma_one_bit(w);
    if text == mark_chars(m) {
        seq![a]
    } else if text == mark_chars(m) + seq![' '] {
        lemma_bits_join(seq![a], seq![w]);
        assert(seq![Tok::Punct(m)] + Seq::<Tok>::empty() =~= seq![Tok::Punct(m)]);
        seq![a] + seq![w]
    } else {
        lemma_bits_join(seq![w], seq![a]);
        lemma_bits_join(seq![w] + seq![a], seq![w]);
        assert(Seq::<Tok>::empty() + seq![Tok::Punct(m)] + Seq::<Tok>::empty() =~= seq![
            Tok::Punct(m),
        ]);
        seq![w] + seq![a] + seq![w]
    }
}

proof fn lemma_name(n: Seq<char>) -> (ps: Seq<Bit>)
    requires
        is_bare(n),
    ensures
        spells(ps, n, seq![Tok::Ident(n)]),
        ps[0] is Name,
{
    lemma_one_bit(Bit::Name(n));
    seq![Bit::Name(n)]
}

#[verifier::rlimit(30)]
proof fn lemma_term_bits(t: Tree, names: Seq<Seq<char>>) -> (ps: Seq<Bit>)
    requires
        plain_names(names),
        named(t, names.len()),
    ensures
        spells(ps, term_text(t, names), term_toks(shown(t, names))),
        is_applied(shown(t, names)),
    decreases t, 0nat,
{
    terms_show_their_arguments(t, names);
    match t {
        Tree::Var(v) => {
            lemma_variable_name(v);
            lemma_name("X"@ + decimal(v as nat))
        },
        Tree::App(f, args) => {
            lemma_named_args(f, args, names.len());
            assert(is_bare(names[f as int]));
            let a = lemma_name(names[f as int]);
            if args.len() == 0 {
                a
            } else {
                let items = shown_items(f, args, names);
                lemma_shown_app(f, args, names);
                reveal_strlit("(");
                reveal_strlit(")");
                assert("("@ =~= mark_chars(Mark::LParen));
                assert(")"@ =~= mark_chars(Mark::RParen));
                let open = lemma_mark(Mark::LParen, "("@);
                let close = lemma_mark(Mark::RParen, ")"@);
                let body = lemma_args_bits(f, args, 0, names);
                let n = names[f as int];
                let tb = join(texts(args, names).skip(0), ", "@);
                let kb = args_toks(items, 1);
                let p = seq![Tok::Punct(Mark::LParen)];
                let q = seq![Tok::Punct(Mark::RParen)];
                lemma_spells_then(a, n, seq![Tok::Ident(n)], open, "("@, p);
                lemma_spells_then(a + open, n + "("@, seq![Tok::Ident(n)] + p, body, tb, kb);
                lemma_spells_then(
                    a + open + body,
                    n + "("@ + tb,
                    seq![Tok::Ident(n)] + p + kb,
                    close,
                    ")"@,
                    q,
                );
                assert(texts(args, names).skip(0) =~= texts(args, names));
                let x = Nest::List(items);
                assert(seq![Tok::Ident(n)] + p =~= seq![
                    Tok::Ident(n),
                    Tok::Punct(Mark::LParen),
                ]);
                assert(items[0] == Nest::Name(n));
                assert(x->List_0 == items);
                assert forall|i: int| 1 <= i < items.len() implies is_applied(
                    #[trigger] items[i],
                ) by {
                    assert(items[i] == shown(args[i - 1], names));
                }
                a + open + body + close
            }
        },
    }
}

/// The pieces of the arguments from position `k` on.
proof fn lemma_args_bits(f: SymbolId, args: Seq<Tree>, k: nat, names: Seq<Seq<char>>) -> (ps: Seq<
    Bit,
>)
    requires
        plain_names(names),
        k < args.len(),
        forall|i: int| 0 <= i < args.len() ==> named(#[trigger] args[i], names.len()),
    ensures
        spells(
            ps,
            join(texts(args, names).skip(k as int), ", "@),
            args_toks(shown_items(f, args, names), k + 1),
        ),
        forall|i: int| k <= i < args.len() ==> is_applied(shown(#[trigger] args[i], names)),
    decreases args, args.len() - k,
{
    let items = shown_items(f, args, names);
    let parts = texts(args, names).skip(k as int);
    let a = lemma_term_bits(args[k as int], names);
    assert(items[k as int + 1] == shown(args[k as int], names));
    assert(parts[0] == term_text(args[k as int], names));
    if k + 1 == args.len() {
        a
    } else {
        reveal_strlit(", ");
        assert(", "@ =~= mark_chars(Mark::Comma) + seq![' ']);
        let comma = lemma_mark(Mark::Comma, ", "@);
        let rest = lemma_args_bits(f, args, k + 1, names);
        lemma_join_first(parts, ", "@);
        assert(parts.skip(1) =~= texts(args, names).skip(k as int + 1));
        let ta = term_text(args[k as int], names);
        let ka = term_toks(items[k as int + 1]);
        let kc = seq![Tok::Punct(Mark::Comma)];
        lemma_spells_then(a, ta, ka, comma, ", "@, kc);
        lemma_spells_then(
            a + comma,
            ta + ", "@,
            ka + kc,
            rest,
            join(parts.skip(1), ", "@),
            args_toks(items, k + 2),
        );
        a + comma + rest
    }
}

proof fn lemma_literal_bits(l: Lit, names: Seq<Seq<char>>) -> (ps: Seq<Bit>)
    requires
        plain_names(names),
        lit_named(l, names.len()),
    ensures
        ({
            let w = Signed {
                positive: l.positive,
                atom: shown(Tree::App(l.predicate, l.args), names),
            };
            spells(ps, lit_text(l, names), signed_toks(w)) && is_signed(w)
        }),
{
    let t = Tree::App(l.predicate, l.args);
    assert(t->App_1 == l.args);
    assert(named(t, names.len()));
    let w = Signed { positive: l.positive, atom: shown(t, names) };
    literals_show_their_sign(l, names);
    let a = lemma_term_bits(t, names);
    assert(!names_variable(names[l.predicate as int]));
    if l.positive {
        assert(signed_toks(w) =~= term_toks(w.atom));
        a
    } else {
        reveal_strlit("~");
        assert("~"@ =~= mark_chars(Mark::Tilde));
        let sign = lemma_mark(Mark::Tilde, "~"@);
        lemma_spells_then(
            sign,
            "~"@,
            seq![Tok::Punct(Mark::Tilde)],
            a,
            term_text(t, names),
            term_toks(w.atom),
        );
        sign + a
    }
}

spec fn lit_texts(ls: Seq<Lit>, names: Seq<Seq<char>>) -> Seq<Seq<char>> {
    Seq::new(ls.len(), |i: int| lit_text(ls[i], names))
}

/// The pieces of the literals from position `k` on.
proof fn lemma_formula_bits(ls: Seq<Lit>, k: nat, names: Seq<Seq<char>>) -> (ps: Seq<Bit>)
    requires
        plain_names(names),
        k < ls.len(),
        forall|i: int| 0 <= i < ls.len() ==> lit_named(#[trigger] ls[i], names.len()),
    ensures
        spells(
            ps,
            join(lit_texts(ls, names).skip(k as int), " | "@),
            formula_toks(shown_literals(ls, names), k),
        ),
        forall|i: int|
            k <= i < ls.len() ==> is_signed(#[trigger] shown_literals(ls, names)[i]),
    decreases ls.len() - k,
{
    let ws = shown_literals(ls, names);
    let parts = lit_texts(ls, names).skip(k as int);
    let a = lemma_literal_bits(ls[k as int], names);
    assert(parts[0] == lit_text(ls[k as int], names));
    if k + 1 == ls.len() {
        a
    } else {
        reveal_strlit(" | ");
        assert(" | "@ =~= seq![' '] + mark_chars(Mark::Pipe) + seq![' ']);
        let bar = lemma_mark(Mark::Pipe, " | "@);
        let rest = lemma_formula_bits(ls, k + 1, names);
        lemma_join_first(parts, " | "@);
        assert(parts.skip(1) =~= lit_texts(ls, names).skip(k as int + 1));
        let ta = lit_text(ls[k as int], names);
        let ka = signed_toks(ws[k as int]);
        let kc = seq![Tok::Punct(Mark::Pipe)];
        lemma_spells_then(a, ta, ka, bar, " | "@, kc);
        lemma_spells_then(
            a + bar,
            ta + " | "@,
            ka + kc,
            rest,
            join(parts.skip(1), " | "@),
            formula_toks(ws, k + 1),
        );
        a + bar + rest
    }
}

/// The statement that a clause is shown as.
pub open spec fn shown_statement(
    ls: Seq<Lit>,
    names: Seq<Seq<char>>,
    name: Seq<char>,
    role: Seq<char>,
) -> Statement {
    Statement { name, role, wrapped: false, literals: shown_literals(ls, names) }
}

/// The pieces before the formula of a statement.
#[verifier::rlimit(30)]
proof fn lemma_header_bits(st: Statement) -> (ps: Seq<Bit>)
    requires
        is_bare(st.name),
        is_bare(st.role),
    ensures
        spells(ps, "cnf("@ + st.name + ", "@ + st.role + ", "@, header_toks(st)),
        !(ps.last() is Name),
{
    let n = st.name;
    let r = st.role;
    let kn = seq![Tok::Ident(n)];
    let kr = seq![Tok::Ident(r)];
    let kc = seq![Tok::Ident("cnf"@)];
    let ko = seq![Tok::Punct(Mark::LParen)];
    let km = seq![Tok::Punct(Mark::Comma)];
    reveal_strlit("cnf");
    reveal_strlit("cnf(");
    reveal_strlit("(");
    reveal_strlit(", ");
    assert("("@ =~= mark_chars(Mark::LParen));
    assert(", "@ =~= mark_chars(Mark::Comma) + seq![' ']);
    assert("cnf("@ =~= "cnf"@ + "("@);
    assert(is_bare("cnf"@));
    let a = lemma_name("cnf"@);
    let b = lemma_mark(Mark::LParen, "("@);
    let c = lemma_name(n);
    let d = lemma_mark(Mark::Comma, ", "@);
    let e = lemma_name(r);
    lemma_spells_then(a, "cnf"@, kc, b, "("@, ko);
    lemma_spells_then(a + b, "cnf("@, kc + ko, c, n, kn);
    lemma_spells_then(a + b + c, "cnf("@ + n, kc + ko + kn, d, ", "@, km);
    lemma_spells_then(a + b + c + d, "cnf("@ + n + ", "@, kc + ko + kn + km, e, r, kr);
    lemma_spells_then(
        a + b + c + d + e,
        "cnf("@ + n + ", "@ + r,
        kc + ko + kn + km + kr,
        d,
        ", "@,
        km,
    );
    assert(kc + ko + kn + km + kr + km =~= header_toks(st));
    a + b + c + d + e + d
}

/// The text of a clause is a formula: in a statement it states the clause,
/// with all its literals, their signs and all their arguments.
#[verifier::rlimit(30)]
pub proof fn shown_clauses_are_formulas(
    ls: Seq<Lit>,
    names: Seq<Seq<char>>,
    name: Seq<char>,
    role: Seq<char>,
)
    requires
        ls.len() > 0,
        plain_names(names),
        forall|i: int| 0 <= i < ls.len() ==> lit_named(#[trigger] ls[i], names.len()),
        is_bare(name),
        is_bare(role),
    ensures
        states(
            plain_text(name, role, clause_text(ls, names)),
            seq![shown_statement(ls, names, name, role)],
        ),
{
    let st = shown_statement(ls, names, name, role);
    let f = clause_text(ls, names);
    let ws = shown_literals(ls, names);
    clauses_show_their_literals(ls, names);
    let h = lemma_header_bits(st);
    let body = lemma_formula_bits(ls, 0, names);
    assert(lit_texts(ls, names).skip(0) =~= lit_texts(ls, names));
    reveal_strlit(")");
    reveal_strlit(".");
    reveal_strlit(").");
    assert(")"@ =~= mark_chars(Mark::RParen));
    assert("."@ =~= mark_chars(Mark::Dot));
    assert(")."@ =~= ")"@ + "."@);
    let close = lemma_mark(Mark::RParen, ")"@);
    let dot = lemma_mark(Mark::Dot, "."@);
    let kp = seq![Tok::Punct(Mark::RParen)];
    let kd = seq![Tok::Punct(Mark::Dot)];
    let th = "cnf("@ + name + ", "@ + role + ", "@;
    let kh = header_toks(st);
    let kf = formula_toks(ws, 0);
    lemma_spells_then(close, ")"@, kp, dot, "."@, kd);
    lemma_spells_then(h, th, kh, body, f, kf);
    lemma_spells_then(h + body, th + f, kh + kf, close + dot, ")."@, kp + kd);
    let ps = h + body + (close + dot);
    let sts = seq![st];
    assert(kp + kd =~= seq![Tok::Punct(Mark::RParen), Tok::Punct(Mark::Dot)]);
    assert(sts[0] == st);
    assert(statements_toks(sts, 1) =~= Seq::<Tok>::empty());
    assert(statements_toks(sts, 0) =~= statement_toks(st));
    assert(is_statement(st)) by {
        assert forall|i: int| 0 <= i < ws.len() implies is_signed(#[trigger] ws[i]) by {}
    }
    assert(bits_fit(ps) && bits_text(ps) == plain_text(name, role, f) && bits_toks(ps)
        == statements_toks(sts, 0));
}

proof fn lemma_gathered_distinct(names: Seq<Seq<char>>, ns: Seq<Seq<char>>, v: bool)
    requires
        names.no_duplicates(),
    ensures
        gathered(names, ns, v).no_duplicates(),
        names.is_prefix_of(gathered(names, ns, v)),
    decreases ns.len(),
{
    if ns.len() > 0 {
        lemma_gathered_distinct(names, ns.drop_last(), v);
        let before = gathered(names, ns.drop_last(), v);
        let after = gathered(names, ns, v);
        assert(after.subrange(0, names.len() as int) =~= before.subrange(0, names.len() as int));
    } else {
        assert(names =~= names.subrange(0, names.len() as int));
    }
}

/// The numbers that variables get when they are read back.
pub open spec fn renumbered(vars: Seq<Seq<char>>) -> Assignment {
    |v: VarId| Tree::Var(vars.index_of("X"@ + decimal(v as nat)) as VarId)
}

/// Whether a variable has a number when it is read back.
spec fn placed(vars: Seq<Seq<char>>, v: VarId) -> bool {
    let n = "X"@ + decimal(v as nat);
    vars.contains(n) && vars.index_of(n) <= u32::MAX
}

/// A term that was shown is read as itself, with its variables renumbered.
#[verifier::rlimit(30)]
proof fn lemma_read_back(
    t: Tree,
    u: Tree,
    names: Seq<Seq<char>>,
    more: Seq<Seq<char>>,
    vars: Seq<Seq<char>>,
)
    requires
        plain_names(names),
        named(t, names.len()),
        names.is_prefix_of(more),
        more.no_duplicates(),
        vars.no_duplicates(),
        denotes(shown(t, names), u, more, vars),
    ensures
        u == t.inst(renumbered(vars)),
        forall|v: VarId| #[trigger] t.has_var(v) ==> placed(vars, v),
        u matches Tree::Var(w) ==> w < vars.len(),
    decreases t,
{
    let rho = renumbered(vars);
    match t {
        Tree::Var(v) => {
            lemma_variable_name(v);
            let n = "X"@ + decimal(v as nat);
            let w = u->Var_0;
            assert(vars[w as int] == n);
            let i = vars.index_of(n);
            assert(0 <= i < vars.len() && vars[i] == n);
            assert(i == w);
        },
        Tree::App(f, args) => {
            lemma_named_args(f, args, names.len());
            crate::tree::lemma_inst_app(f, args, rho);
            assert(more[f as int] == names[f as int]) by {
                assert(more.subrange(0, names.len() as int)[f as int] == more[f as int]);
            }
            assert(!names_variable(names[f as int]));
            if args.len() > 0 {
                lemma_shown_app(f, args, names);
                let items = shown_items(f, args, names);
                let x = shown(t, names);
                assert(items[0] == Nest::Name(names[f as int]));
                let g = u->App_0;
                let us = u->App_1;
                assert(x->List_0 == items);
                assert forall|i: int| 0 <= i < args.len() implies us[i] == (
                #[trigger] args[i]).inst(rho) && (forall|v: VarId| #[trigger]
                    args[i].has_var(v) ==> placed(vars, v)) by {
                    assert(items[i + 1] == shown(args[i], names));
                    assert(denotes(items[i + 1], us[i + 1 - 1], more, vars));
                    lemma_read_back(args[i], us[i], names, more, vars);
                }
                assert(us =~= crate::tree::inst_all(args, rho));
                assert forall|v: VarId| #[trigger] t.has_var(v) implies placed(
                    vars,
                    v,
                ) by {
                    let i = choose|i: int| 0 <= i < args.len() && (#[trigger] args[i]).has_var(v);
                    assert(args[i].has_var(v));
                }
            } else {
                assert(u->App_1 =~= crate::tree::inst_all(args, rho));
            }
        },
    }
}

/// A clause that is shown and read again is the same clause, with its variables
/// renumbered one for one.
#[verifier::rlimit(30)]
pub proof fn shown_clauses_can_be_read(
    ls: Seq<Lit>,
    kn: Known,
    name: Seq<char>,
    role: Seq<char>,
) -> (rho: Assignment)
    requires
        ls.len() > 0,
        plain_names(kn.names),
        kn.names.no_duplicates(),
        forall|i: int| 0 <= i < ls.len() ==> lit_named(#[trigger] ls[i], kn.names.len()),
        is_bare(name),
        is_bare(role),
        tptp_problem_of(plain_text(name, role, clause_text(ls, kn.names)), kn).1.in_range(),
    ensures
        tptp_problem_of(plain_text(name, role, clause_text(ls, kn.names)), kn).0 == Ok::<
            Seq<Seq<Lit>>,
            crate::parser::ErrorView,
        >(seq![inst_lits(ls, rho)]),
        forall|v: VarId| #[trigger] rho(v) is Var,
        forall|v: VarId, w: VarId|
            crate::clause::lits_have_var(ls, v) && crate::clause::lits_have_var(ls, w) && (
            #[trigger] rho(v)) == (#[trigger] rho(w)) ==> v == w,
{
    let names = kn.names;
    let text = plain_text(name, role, clause_text(ls, names));
    let st = shown_statement(ls, names, name, role);
    let sts = seq![st];
    shown_clauses_are_formulas(ls, names, name, role);
    statements_are_read_as_written(text, sts, kn);
    let (r, kn1) = tptp_problem_of(text, kn);
    let cs = r->Ok_0;
    let c = cs[0];
    assert(statement_denotes(sts[0], cs[0], kn1.names));
    let ws = shown_literals(ls, names);
    let vars = gathered(Seq::empty(), formula_order(ws, 0), true);
    lemma_gathered_distinct(Seq::empty(), formula_order(ws, 0), true);
    lemma_gathered_distinct(names, crate::statements::statements_order(sts, 0), false);
    let rho = renumbered(vars);
    assert forall|i: int| 0 <= i < c.len() implies #[trigger] c[i] == ls[i].inst(rho) && (forall|
        v: VarId,
    | #[trigger]
        ls[i].has_var(v) ==> placed(vars, v)) by {
        assert(signed_denotes(ws[i], c[i], kn1.names, vars));
        let t = Tree::App(ls[i].predicate, ls[i].args);
        let u = Tree::App(c[i].predicate, c[i].args);
        assert(t->App_1 == ls[i].args);
        assert(lit_named(ls[i], names.len()));
        assert(named(t, names.len()));
        lemma_read_back(t, u, names, kn1.names, vars);
        crate::tree::lemma_inst_app(ls[i].predicate, ls[i].args, rho);
        assert forall|v: VarId| #[trigger] ls[i].has_var(v) implies placed(
            vars,
            v,
        ) by {
            assert(t.has_var(v));
        }
    }
    assert(c =~= inst_lits(ls, rho));
    assert(cs =~= seq![inst_lits(ls, rho)]);
    assert forall|v: VarId, w: VarId|
        crate::clause::lits_have_var(ls, v) && crate::clause::lits_have_var(ls, w) && (
        #[trigger] rho(v)) == (#[trigger] rho(w)) implies v == w by {
        let a = "X"@ + decimal(v as nat);
        let b = "X"@ + decimal(w as nat);
        let i = choose|i: int| 0 <= i < ls.len() && (#[trigger] ls[i]).has_var(v);
        let j = choose|j: int| 0 <= j < ls.len() && (#[trigger] ls[j]).has_var(w);
        assert(c[i] == ls[i].inst(rho));
        assert(c[j] == ls[j].inst(rho));
        assert(placed(vars, v) && placed(vars, w));
        let x = vars.index_of(a);
        let y = vars.index_of(b);
        assert(0 <= x < vars.len() && vars[x] == a);
        assert(0 <= y < vars.len() && vars[y] == b);
        assert(x == y);
        reveal_strlit("X");
        assert(a.skip(1) =~= decimal(v as nat));
        assert(b.skip(1) =~= decimal(w as nat));
        numerals_are_unambiguous(v as nat, w as nat);
    }
    rho
}

} // verus!
