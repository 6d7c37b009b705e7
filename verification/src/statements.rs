//! Texts in the clause normal form of TPTP: how names, marks, white space and
//! comments lie in a text, which clauses its statements stand for, and that
//! the reader gives those.
use crate::clause::Lit;
use crate::lists::Nest;
use crate::parser::{
    id_in, interned, is_variable, lemma_vars_in_range, line_end, ErrorView, Known, Scope,
};
use crate::reading::{denotes, lemma_denotes_grows, names_variable};
use crate::text::white_space;
use crate::tptp::{
    args_at, comment_begins, comment_end, ends_ident, header_at, ident_end, is_equality, is_mark,
    kinds, lemma_literal_at, lemma_literals_grow, lemma_quote_end, lemma_scan_step,
    lemma_statement_at, lemma_statements_grow, lemma_term_at, lexeme, literal_at, literals_at,
    mark_of, quote_end, scan, statement_at, statements_at, term_at, tptp_problem_of, Mark, Tok,
};
use crate::tree::Tree;
use vstd::prelude::*;

verus! {

/// The characters of a mark.
pub open spec fn mark_chars(m: Mark) -> Seq<char> {
    match m {
        Mark::LParen => seq!['('],
        Mark::RParen => seq![')'],
        Mark::Comma => seq![','],
        Mark::Dot => seq!['.'],
        Mark::Pipe => seq!['|'],
        Mark::Tilde => seq!['~'],
        Mark::Equals => seq!['='],
        Mark::NotEquals => seq!['!', '='],
    }
}

/// Whether a character can stand in a bare name.
pub open spec fn in_name(c: char) -> bool {
    !white_space(c) && c != '(' && c != ')' && c != ',' && c != '.' && c != '|' && c != '~' && c
        != '=' && c != '!' && c != '\'' && c != '%'
}

/// Whether `x` and `y` stand side by side somewhere.
pub open spec fn has_pair(s: Seq<char>, x: char, y: char) -> bool {
    exists|k: int| 0 <= k < s.len() - 1 && #[trigger] s[k] == x && s[k + 1] == y
}

/// Whether a text can stand as a bare name.
pub open spec fn is_bare(n: Seq<char>) -> bool {
    &&& n.len() > 0
    &&& n[0] != '/'
    &&& forall|k: int| 0 <= k < n.len() ==> in_name(#[trigger] n[k])
    &&& !has_pair(n, '/', '*')
}

/// A piece of a text: a mark, a name, a name in quotes, a character of white
/// space, a comment up to the end of its line, or a comment between `/*` and
/// `*/`.
pub enum Bit {
    Mark(Mark),
    Name(Seq<char>),
    Quoted(Seq<char>),
    White(char),
    Remark(Seq<char>),
    Block(Seq<char>),
}

/// The characters of a piece.
pub open spec fn bit_text(p: Bit) -> Seq<char> {
    match p {
        Bit::Mark(m) => mark_chars(m),
        Bit::Name(n) => n,
        Bit::Quoted(n) => seq!['\''] + n + seq!['\''],
        Bit::White(c) => seq![c],
        Bit::Remark(body) => seq!['%'] + body,
        Bit::Block(body) => seq!['/', '*'] + body + seq!['*', '/'],
    }
}

/// Whether a piece is what it is said to be.
pub open spec fn bit_fits(p: Bit) -> bool {
    match p {
        Bit::Mark(_) => true,
        Bit::Name(n) => is_bare(n),
        Bit::Quoted(n) => !n.contains('\'') && !n.contains('\n'),
        Bit::White(c) => c == ' ' || c == '\t' || c == '\r' || c == '\n',
        Bit::Remark(body) => !body.contains('\n'),
        Bit::Block(body) => !has_pair(body, '*', '/'),
    }
}

/// Whether the pieces can stand one after the other: a comment ends with its
/// line, and something stands between two bare names.
pub open spec fn bits_fit(ps: Seq<Bit>) -> bool {
    &&& forall|i: int| 0 <= i < ps.len() ==> bit_fits(#[trigger] ps[i])
    &&& forall|i: int|
        0 <= i < ps.len() - 1 ==> {
            &&& (#[trigger] ps[i]) is Remark ==> ps[i + 1] == Bit::White('\n')
            &&& ps[i] is Name ==> !(ps[i + 1] is Name)
        }
}

/// The text that the pieces make, one after the other.
pub open spec fn bits_text(ps: Seq<Bit>) -> Seq<char>
    decreases ps.len(),
{
    if ps.len() == 0 {
        Seq::empty()
    } else {
        bit_text(ps[0]) + bits_text(ps.skip(1))
    }
}

/// The marks and names among the pieces.
pub open spec fn bits_toks(ps: Seq<Bit>) -> Seq<Tok>
    decreases ps.len(),
{
    if ps.len() == 0 {
        Seq::empty()
    } else {
        match ps[0] {
            Bit::Mark(m) => seq![Tok::Punct(m)] + bits_toks(ps.skip(1)),
            Bit::Name(n) => seq![Tok::Ident(n)] + bits_toks(ps.skip(1)),
            Bit::Quoted(n) => seq![Tok::Ident(n)] + bits_toks(ps.skip(1)),
            _ => bits_toks(ps.skip(1)),
        }
    }
}

// ---------------------------------------------------------------------------
// Marks and names.
// ---------------------------------------------------------------------------
proof fn lemma_ident_end_at(s: Seq<char>, i: nat, e: nat)
    requires
        i <= e <= s.len(),
        forall|k: int| i <= k < e ==> in_name(#[trigger] s[k]) && !comment_begins(s, k as nat),
        e < s.len() ==> !in_name(s[e as int]) || comment_begins(s, e),
    ensures
        ident_end(s, i) == e,
    decreases e - i,
{
    if i < e {
        assert(in_name(s[i as int]) && !comment_begins(s, i));
        lemma_ident_end_at(s, i + 1, e);
    }
}

proof fn lemma_ident_end_stop(s: Seq<char>, i: nat)
    requires
        i <= s.len(),
    ensures
        i <= ident_end(s, i) <= s.len(),
        forall|k: int|
            i <= k < ident_end(s, i) ==> in_name(#[trigger] s[k]) && !comment_begins(s, k as nat),
        ident_end(s, i) < s.len() ==> !in_name(s[ident_end(s, i) as int]) || comment_begins(
            s,
            ident_end(s, i),
        ),
    decreases s.len() - i,
{
    if i < s.len() && !ends_ident(s[i as int]) && !comment_begins(s, i) {
        lemma_ident_end_stop(s, i + 1);
    }
}

proof fn lemma_quote_end_at(s: Seq<char>, i: nat, e: nat)
    requires
        i <= e < s.len(),
        forall|k: int| i <= k < e ==> (#[trigger] s[k]) != '\'' && s[k] != '\n',
        s[e as int] == '\'',
    ensures
        quote_end(s, i) == e,
    decreases e - i,
{
    if i < e {
        assert(s[i as int] != '\'');
        lemma_quote_end_at(s, i + 1, e);
    }
}

proof fn lemma_quote_end_stop(s: Seq<char>, i: nat)
    requires
        i <= s.len(),
    ensures
        i <= quote_end(s, i) <= s.len(),
        forall|k: int| i <= k < quote_end(s, i) ==> (#[trigger] s[k]) != '\'' && s[k] != '\n',
    decreases s.len() - i,
{
    if i < s.len() && s[i as int] != '\'' && s[i as int] != '\n' {
        lemma_quote_end_stop(s, i + 1);
    }
}

proof fn lemma_line_end_at(s: Seq<char>, i: nat, e: nat)
    requires
        i <= e <= s.len(),
        forall|k: int| i <= k < e ==> (#[trigger] s[k]) != '\n',
        e < s.len() ==> s[e as int] == '\n',
    ensures
        line_end(s, i) == e,
    decreases e - i,
{
    if i < e {
        lemma_line_end_at(s, i + 1, e);
    }
}

proof fn lemma_line_end_stop(s: Seq<char>, i: nat)
    requires
        i <= s.len(),
    ensures
        i <= line_end(s, i) <= s.len(),
        forall|k: int| i <= k < line_end(s, i) ==> (#[trigger] s[k]) != '\n',
        line_end(s, i) < s.len() ==> s[line_end(s, i) as int] == '\n',
    decreases s.len() - i,
{
    if i < s.len() && s[i as int] != '\n' {
        lemma_line_end_stop(s, i + 1);
    }
}

proof fn lemma_comment_end_at(s: Seq<char>, i: nat, e: nat)
    requires
        i <= e,
        e + 1 < s.len(),
        forall|k: int| i <= k < e ==> !((#[trigger] s[k]) == '*' && s[k + 1] == '/'),
        s[e as int] == '*',
        s[(e + 1) as int] == '/',
    ensures
        comment_end(s, i) == Some(e + 2),
    decreases e - i,
{
    if i < e {
        assert(!(s[i as int] == '*' && s[i as int + 1] == '/'));
        lemma_comment_end_at(s, i + 1, e);
    }
}

proof fn lemma_comment_end_stop(s: Seq<char>, i: nat)
    ensures
        comment_end(s, i) matches Some(e) ==> {
            &&& i + 2 <= e <= s.len()
            &&& s[e - 2] == '*' && s[e - 1] == '/'
            &&& forall|k: int| i <= k < e - 2 ==> !((#[trigger] s[k]) == '*' && s[k + 1] == '/')
        },
    decreases s.len() - i,
{
    if i < s.len() && !(s[i as int] == '*' && i + 1 < s.len() && s[(i + 1) as int] == '/') {
        lemma_comment_end_stop(s, i + 1);
    }
}

/// The token of a piece.
pub(crate) open spec fn bit_tok(p: Bit) -> Option<Tok> {
    match p {
        Bit::Mark(m) => Some(Tok::Punct(m)),
        Bit::Name(n) => Some(Tok::Ident(n)),
        Bit::Quoted(n) => Some(Tok::Ident(n)),
        _ => None,
    }
}

/// A piece that stands at `i` is read there.
#[verifier::rlimit(30)]
pub(crate) proof fn lemma_bit_read(s: Seq<char>, i: nat, line: nat, p: Bit)
    requires
        bit_fits(p),
        i + bit_text(p).len() <= s.len(),
        forall|k: int| 0 <= k < bit_text(p).len() ==> #[trigger] s[i + k] == bit_text(p)[k],
        p is Remark && i + bit_text(p).len() < s.len() ==> s[(i + bit_text(p).len()) as int]
            == '\n',
        p is Name && i + bit_text(p).len() < s.len() ==> !in_name(
            s[(i + bit_text(p).len()) as int],
        ) || comment_begins(s, i + bit_text(p).len()),
    ensures
        bit_text(p).len() > 0,
        lexeme(s, i, line) matches Ok((t, e, _)) && t == bit_tok(p) && e == i + bit_text(p).len(),
{
    let t = bit_text(p);
    let e = i + t.len();
    let z: int = 0;
    let one: int = 1;
    match p {
        Bit::Mark(m) => {
            assert(s[i + z] == t[0]);
            if m == Mark::NotEquals {
                assert(s[i + one] == t[1]);
            }
        },
        Bit::Name(n) => {
            assert(s[i + z] == n[0]);
            assert(in_name(n[0]));
            assert forall|k: int| i + 1 <= k < e implies in_name(#[trigger] s[k])
                && !comment_begins(s, k as nat) by {
                assert(s[i + (k - i)] == n[k - i]);
                if comment_begins(s, k as nat) {
                    if k + 1 < e {
                        assert(s[i + (k + 1 - i)] == n[k + 1 - i]);
                        assert(n[k - i] == '/' && n[k - i + 1] == '*');
                        assert(has_pair(n, '/', '*'));
                    } else {
                        assert(in_name('*'));
                        assert(s[e as int] == '*');
                        assert(!comment_begins(s, e));
                    }
                }
            }
            lemma_ident_end_at(s, i + 1, e);
            assert(s.subrange(i as int, e as int) =~= n) by {
                assert forall|k: int| 0 <= k < n.len() implies s.subrange(i as int, e as int)[k]
                    == n[k] by {
                    assert(s[i + k] == n[k]);
                }
            }
        },
        Bit::Quoted(n) => {
            assert(s[i + z] == t[0]);
            let q = (e - 1) as nat;
            let last: int = t.len() - 1;
            assert(s[i + last] == t[last]);
            assert forall|k: int| i + 1 <= k < q implies (#[trigger] s[k]) != '\'' && s[k]
                != '\n' by {
                assert(s[i + (k - i)] == t[k - i]);
                assert(n[k - i - 1] == s[k]);
                assert(n.contains(n[k - i - 1]));
            }
            lemma_quote_end_at(s, i + 1, q);
            assert(s.subrange((i + 1) as int, q as int) =~= n) by {
                assert forall|k: int| 0 <= k < n.len() implies s.subrange(
                    (i + 1) as int,
                    q as int,
                )[k] == n[k] by {
                    assert(s[i + (k + 1)] == t[k + 1]);
                }
            }
        },
        Bit::White(c) => {
            assert(s[i + z] == t[0]);
        },
        Bit::Remark(body) => {
            assert(s[i + z] == t[0]);
            assert forall|k: int| i + 1 <= k < e implies (#[trigger] s[k]) != '\n' by {
                assert(s[i + (k - i)] == t[k - i]);
                assert(body[k - i - 1] == s[k]);
                assert(body.contains(body[k - i - 1]));
            }
            lemma_line_end_at(s, i + 1, e);
        },
        Bit::Block(body) => {
            assert(s[i + z] == t[0]);
            assert(s[i + one] == t[1]);
            let q = (e - 2) as nat;
            let a: int = t.len() - 2;
            let b: int = t.len() - 1;
            assert(s[i + a] == t[a] && s[i + b] == t[b]);
            assert forall|k: int| i + 2 <= k < q implies !((#[trigger] s[k]) == '*' && s[k + 1]
                == '/') by {
                assert(s[i + (k - i)] == t[k - i]);
                assert(s[i + (k + 1 - i)] == t[k + 1 - i]);
                if s[k] == '*' && s[k + 1] == '/' {
                    assert(k + 1 < q);
                    assert(body[k - i - 2] == '*' && body[k - i - 2 + 1] == '/');
                    assert(has_pair(body, '*', '/'));
                }
            }
            lemma_comment_end_at(s, i + 2, q);
        },
    }
}

pub(crate) proof fn lemma_bits_rest(ps: Seq<Bit>)
    requires
        bits_fit(ps),
        ps.len() > 0,
    ensures
        bits_fit(ps.skip(1)),
        bit_fits(ps[0]),
        ps.len() > 1 ==> ps.skip(1)[0] == ps[1],
        ps.len() > 1 && ps[0] is Remark ==> ps[1] == Bit::White('\n'),
        ps.len() > 1 && ps[0] is Name ==> !(ps[1] is Name),
{
    let rest = ps.skip(1);
    assert forall|i: int| 0 <= i < rest.len() implies bit_fits(#[trigger] rest[i]) by {
        assert(rest[i] == ps[i + 1]);
    }
    assert forall|i: int| 0 <= i < rest.len() - 1 implies {
        &&& (#[trigger] rest[i]) is Remark ==> rest[i + 1] == Bit::White('\n')
        &&& rest[i] is Name ==> !(rest[i + 1] is Name)
    } by {
        assert(rest[i] == ps[i + 1]);
    }
    if ps.len() > 1 {
        let z: int = 0;
        assert(ps[z] is Remark ==> ps[z + 1] == Bit::White('\n'));
    }
}

/// How a text that is laid out begins.
pub(crate) proof fn lemma_bits_first(ps: Seq<Bit>)
    requires
        bits_fit(ps),
    ensures
        ps.len() == 0 <==> bits_text(ps).len() == 0,
        ps.len() > 0 ==> bits_text(ps)[0] == bit_text(ps[0])[0],
        ps.len() > 0 && !(ps[0] is Name) ==> !in_name(bits_text(ps)[0]) || bits_text(ps).len() > 1
            && bits_text(ps)[0] == '/' && bits_text(ps)[1] == '*',
        ps.len() > 0 && ps[0] is Name ==> in_name(bits_text(ps)[0]) && bits_text(ps)[0] != '/',
{
    if ps.len() > 0 {
        assert(bit_fits(ps[0]));
        let t = bit_text(ps[0]);
        assert(t.len() > 0);
        match ps[0] {
            Bit::Block(body) => {
                assert(t[0] == '/' && t[1] == '*');
            },
            Bit::Name(n) => {
                assert(in_name(n[0]));
            },
            _ => {},
        }
    }
}

proof fn lemma_kinds_cons(t: Tok, line: nat, ts: Seq<(Tok, nat)>)
    ensures
        kinds(seq![(t, line)] + ts) == seq![t] + kinds(ts),
{
    assert(kinds(seq![(t, line)] + ts) =~= seq![t] + kinds(ts));
}

#[verifier::rlimit(30)]
proof fn lemma_scan_laid(s: Seq<char>, i: nat, line: nat, ps: Seq<Bit>)
    requires
        i <= s.len(),
        s.skip(i as int) == bits_text(ps),
        bits_fit(ps),
    ensures
        scan(s, i, line) matches Ok(ts) && kinds(ts) == bits_toks(ps),
    decreases ps.len(),
{
    lemma_bits_first(ps);
    if ps.len() == 0 {
        assert(s.skip(i as int).len() == 0);
        assert(kinds(Seq::<(Tok, nat)>::empty()) =~= bits_toks(ps));
    } else {
        lemma_bits_rest(ps);
        let p = ps[0];
        let rest = ps.skip(1);
        let t = bit_text(p);
        let e = i + t.len();
        let suffix = s.skip(i as int);
        assert(suffix.len() == t.len() + bits_text(rest).len());
        assert forall|k: int| 0 <= k < t.len() implies #[trigger] s[i + k] == t[k] by {
            assert(suffix[k] == t[k]);
        }
        assert(s.skip(e as int) =~= bits_text(rest)) by {
            assert forall|k: int| 0 <= k < bits_text(rest).len() implies s.skip(e as int)[k]
                == bits_text(rest)[k] by {
                assert(suffix[t.len() + k] == bits_text(rest)[k]);
            }
        }
        lemma_bits_first(rest);
        if e < s.len() {
            assert(s.skip(e as int)[0] == s[e as int]);
            if e + 1 < s.len() {
                assert(s.skip(e as int)[1] == s[(e + 1) as int]);
            }
        }
        lemma_bit_read(s, i, line, p);
        lemma_scan_step(s, i, line);
        let l = lexeme(s, i, line)->Ok_0.2;
        lemma_scan_laid(s, e, l, rest);
        if let Some(k) = bit_tok(p) {
            lemma_kinds_cons(k, line, scan(s, e, l)->Ok_0);
        }
    }
}

/// A text that is laid out is read mark by mark and name by name: white space
/// and comments only keep names apart.
pub proof fn marks_and_names_are_read(ps: Seq<Bit>)
    requires
        bits_fit(ps),
    ensures
        scan(bits_text(ps), 0, 1) matches Ok(ts) && kinds(ts) == bits_toks(ps),
{
    let s = bits_text(ps);
    assert(s.skip(0) =~= s);
    lemma_scan_laid(s, 0, 1, ps);
}

/// What is read at `i` is a piece that stands there.
#[verifier::rlimit(30)]
pub(crate) proof fn lemma_lexeme_bit(s: Seq<char>, i: nat, line: nat) -> (p: Bit)
    requires
        i < s.len(),
        lexeme(s, i, line) is Ok,
    ensures
        bit_fits(p),
        lexeme(s, i, line) matches Ok((t, e, _)) && t == bit_tok(p) && i < e <= s.len()
            && bit_text(p) == s.subrange(i as int, e as int) && (p is Remark && e < s.len()
            ==> s[e as int] == '\n') && (p is Name && e < s.len() ==> !in_name(s[e as int])
            || comment_begins(s, e)),
        s[i as int] == '\n' ==> p == Bit::White('\n'),
{
    let c = s[i as int];
    let (t, e, l) = lexeme(s, i, line)->Ok_0;
    lemma_line_end_stop(s, i + 1);
    lemma_comment_end_stop(s, i + 2);
    lemma_quote_end_stop(s, i + 1);
    lemma_quote_end(s, i + 1);
    lemma_ident_end_stop(s, i + 1);
    let p = if c == ' ' || c == '\t' || c == '\r' || c == '\n' {
        Bit::White(c)
    } else if c == '%' {
        Bit::Remark(s.subrange((i + 1) as int, e as int))
    } else if c == '/' {
        Bit::Block(s.subrange((i + 2) as int, e - 2))
    } else if mark_of(c) is Some {
        Bit::Mark(mark_of(c)->Some_0)
    } else if c == '!' {
        Bit::Mark(Mark::NotEquals)
    } else if c == '\'' {
        Bit::Quoted(s.subrange((i + 1) as int, e - 1))
    } else {
        Bit::Name(s.subrange(i as int, e as int))
    };
    assert(bit_text(p) =~= s.subrange(i as int, e as int));
    match p {
        Bit::Remark(body) => {
            assert forall|k: int| 0 <= k < body.len() implies body[k] != '\n' by {
                assert(body[k] == s[i + 1 + k]);
            }
        },
        Bit::Block(body) => {
            assert forall|k: int| 0 <= k < body.len() - 1 implies !(#[trigger] body[k] == '*'
                && body[k + 1] == '/') by {
                assert(body[k] == s[i + 2 + k] && body[k + 1] == s[i + 2 + k + 1]);
            }
        },
        Bit::Quoted(n) => {
            assert forall|k: int| 0 <= k < n.len() implies n[k] != '\'' && n[k] != '\n' by {
                assert(n[k] == s[i + 1 + k]);
            }
        },
        Bit::Name(n) => {
            assert forall|k: int| 0 <= k < n.len() implies in_name(#[trigger] n[k]) by {
                assert(n[k] == s[i + k]);
            }
            assert forall|k: int| 0 <= k < n.len() - 1 implies !(#[trigger] n[k] == '/' && n[k + 1]
                == '*') by {
                assert(n[k] == s[i + k] && n[k + 1] == s[i + k + 1]);
                if k > 0 {
                    assert(!comment_begins(s, (i + k) as nat));
                }
            }
        },
        _ => {},
    }
    p
}

proof fn lemma_bits_cons(p: Bit, rest: Seq<Bit>)
    requires
        bits_fit(rest),
        bit_fits(p),
        rest.len() > 0 && p is Remark ==> rest[0] == Bit::White('\n'),
        rest.len() > 0 && p is Name ==> !(rest[0] is Name),
    ensures
        bits_fit(seq![p] + rest),
        bits_text(seq![p] + rest) == bit_text(p) + bits_text(rest),
{
    let ps = seq![p] + rest;
    assert(ps.skip(1) =~= rest);
    assert forall|i: int| 0 <= i < ps.len() - 1 implies {
        &&& (#[trigger] ps[i]) is Remark ==> ps[i + 1] == Bit::White('\n')
        &&& ps[i] is Name ==> !(ps[i + 1] is Name)
    } by {
        if i > 0 {
            assert(ps[i] == rest[i - 1]);
        }
    }
}

proof fn lemma_scan_bits(s: Seq<char>, i: nat, line: nat) -> (ps: Seq<Bit>)
    requires
        i <= s.len(),
        scan(s, i, line) is Ok,
    ensures
        bits_fit(ps),
        bits_text(ps) == s.skip(i as int),
        ps.len() > 0 && s[i as int] == '\n' ==> ps[0] == Bit::White('\n'),
    decreases s.len() - i,
{
    if i == s.len() {
        let ps = Seq::<Bit>::empty();
        assert(bits_text(ps) =~= s.skip(i as int));
        ps
    } else {
        lemma_scan_step(s, i, line);
        let p = lemma_lexeme_bit(s, i, line);
        let (_, e, l) = lexeme(s, i, line)->Ok_0;
        let rest = lemma_scan_bits(s, e, l);
        lemma_bits_first(rest);
        if e < s.len() {
            assert(s.skip(e as int)[0] == s[e as int]);
        } else {
            assert(s.skip(e as int).len() == 0);
        }
        lemma_bits_cons(p, rest);
        let ps = seq![p] + rest;
        assert(bits_text(ps) =~= s.skip(i as int));
        ps
    }
}

/// Whatever text is read is made of marks, names, white space and comments.
pub proof fn texts_are_made_of_bits(s: Seq<char>)
    ensures
        scan(s, 0, 1) matches Ok(ts) ==> exists|ps: Seq<Bit>| #[trigger]
            bits_fit(ps) && bits_text(ps) == s && bits_toks(ps) == kinds(ts),
{
    if scan(s, 0, 1) is Ok {
        let ps = lemma_scan_bits(s, 0, 1);
        assert(s.skip(0) =~= s);
        marks_and_names_are_read(ps);
        assert(bits_fit(ps) && bits_text(ps) == s && bits_toks(ps) == kinds(scan(s, 0, 1)->Ok_0));
    }
}

// ---------------------------------------------------------------------------
// Statements.
// ---------------------------------------------------------------------------
/// The marks and names of a term: a name, or a symbol with its arguments in
/// parentheses and commas between them.
pub open spec fn term_toks(x: Nest) -> Seq<Tok>
    decreases x, 0nat,
{
    match x {
        Nest::Name(n) => seq![Tok::Ident(n)],
        Nest::List(items) => seq![
            Tok::Ident(items[0]->Name_0),
            Tok::Punct(Mark::LParen),
        ] + args_toks(items, 1) + seq![Tok::Punct(Mark::RParen)],
    }
}

/// The marks and names of the arguments from position `k` on.
pub open spec fn args_toks(items: Seq<Nest>, k: nat) -> Seq<Tok>
    decreases items, items.len() - k,
{
    if k >= items.len() {
        Seq::empty()
    } else if k + 1 == items.len() {
        term_toks(items[k as int])
    } else {
        term_toks(items[k as int]) + seq![Tok::Punct(Mark::Comma)] + args_toks(items, k + 1)
    }
}

/// Whether `x` is a term: a name, or a name that is no variable with one or
/// more arguments.
pub open spec fn is_applied(x: Nest) -> bool
    decreases x,
{
    match x {
        Nest::Name(_) => true,
        Nest::List(items) => {
            &&& items.len() > 1
            &&& items[0] matches Nest::Name(n) && !names_variable(n)
            &&& forall|i: int| 1 <= i < items.len() ==> is_applied(#[trigger] items[i])
        },
    }
}

/// The names in a term in the order in which they are numbered: a symbol after
/// its arguments.
pub open spec fn name_order(x: Nest) -> Seq<Seq<char>>
    decreases x, 0nat,
{
    match x {
        Nest::Name(n) => seq![n],
        Nest::List(items) => order_from(items, 1) + seq![items[0]->Name_0],
    }
}

/// The names in the terms from position `k` on.
pub open spec fn order_from(items: Seq<Nest>, k: nat) -> Seq<Seq<char>>
    decreases items, items.len() - k,
{
    if k < items.len() {
        name_order(items[k as int]) + order_from(items, k + 1)
    } else {
        Seq::empty()
    }
}

/// The names of variables, or of symbols, in the order of their first
/// appearance: those that were known, then the new ones in `ns`.
pub open spec fn gathered(names: Seq<Seq<char>>, ns: Seq<Seq<char>>, variables: bool) -> Seq<
    Seq<char>,
>
    decreases ns.len(),
{
    if ns.len() == 0 {
        names
    } else {
        let before = gathered(names, ns.drop_last(), variables);
        if names_variable(ns.last()) == variables && !before.contains(ns.last()) {
            before.push(ns.last())
        } else {
            before
        }
    }
}

/// A literal: its predicate with its arguments, and its sign.
pub struct Signed {
    pub positive: bool,
    pub atom: Nest,
}

/// Whether it is a literal: its predicate is no variable.
pub open spec fn is_signed(l: Signed) -> bool {
    is_applied(l.atom) && !(l.atom matches Nest::Name(n) && names_variable(n))
}

/// The marks and names of a literal: `~` stands before a negative one.
pub open spec fn signed_toks(l: Signed) -> Seq<Tok> {
    (if l.positive {
        Seq::empty()
    } else {
        seq![Tok::Punct(Mark::Tilde)]
    }) + term_toks(l.atom)
}

/// The marks and names of the literals from position `k` on: bars stand
/// between them.
pub open spec fn formula_toks(ls: Seq<Signed>, k: nat) -> Seq<Tok>
    decreases ls.len() - k,
{
    if k >= ls.len() {
        Seq::empty()
    } else if k + 1 == ls.len() {
        signed_toks(ls[k as int])
    } else {
        signed_toks(ls[k as int]) + seq![Tok::Punct(Mark::Pipe)] + formula_toks(ls, k + 1)
    }
}

/// A statement: its name, its role, whether parentheses stand around its
/// formula, and the literals of its formula.
pub struct Statement {
    pub name: Seq<char>,
    pub role: Seq<char>,
    pub wrapped: bool,
    pub literals: Seq<Signed>,
}

/// Whether it is a statement: it has one or more literals.
pub open spec fn is_statement(st: Statement) -> bool {
    &&& st.literals.len() > 0
    &&& forall|i: int| 0 <= i < st.literals.len() ==> is_signed(#[trigger] st.literals[i])
}

/// The marks and names before the formula of a statement.
pub open spec fn header_toks(st: Statement) -> Seq<Tok> {
    seq![
        Tok::Ident("cnf"@),
        Tok::Punct(Mark::LParen),
        Tok::Ident(st.name),
        Tok::Punct(Mark::Comma),
        Tok::Ident(st.role),
        Tok::Punct(Mark::Comma),
    ]
}

/// The marks and names of the formula of a statement.
pub open spec fn body_toks(st: Statement) -> Seq<Tok> {
    if st.wrapped {
        seq![Tok::Punct(Mark::LParen)] + formula_toks(st.literals, 0) + seq![
            Tok::Punct(Mark::RParen),
        ]
    } else {
        formula_toks(st.literals, 0)
    }
}

/// The marks and names of a statement.
pub open spec fn statement_toks(st: Statement) -> Seq<Tok> {
    header_toks(st) + body_toks(st) + seq![Tok::Punct(Mark::RParen), Tok::Punct(Mark::Dot)]
}

/// The marks and names of the statements from position `k` on.
pub open spec fn statements_toks(sts: Seq<Statement>, k: nat) -> Seq<Tok>
    decreases sts.len() - k,
{
    if k < sts.len() {
        statement_toks(sts[k as int]) + statements_toks(sts, k + 1)
    } else {
        Seq::empty()
    }
}

/// The names in the literals from position `k` on, in the order in which they
/// are numbered.
pub open spec fn formula_order(ls: Seq<Signed>, k: nat) -> Seq<Seq<char>>
    decreases ls.len() - k,
{
    if k < ls.len() {
        name_order(ls[k as int].atom) + formula_order(ls, k + 1)
    } else {
        Seq::empty()
    }
}

/// The names in the statements from position `k` on, in the order in which
/// they are numbered.
pub open spec fn statements_order(sts: Seq<Statement>, k: nat) -> Seq<Seq<char>>
    decreases sts.len() - k,
{
    if k < sts.len() {
        formula_order(sts[k as int].literals, 0) + statements_order(sts, k + 1)
    } else {
        Seq::empty()
    }
}

/// Whether the literal that is written stands for `l`.
pub open spec fn signed_denotes(
    w: Signed,
    l: Lit,
    names: Seq<Seq<char>>,
    vars: Seq<Seq<char>>,
) -> bool {
    l.positive == w.positive && denotes(w.atom, Tree::App(l.predicate, l.args), names, vars)
}

/// Whether a statement stands for the clause. Its variables are numbered from 0
/// in the order of their first appearance.
pub open spec fn statement_denotes(st: Statement, c: Seq<Lit>, names: Seq<Seq<char>>) -> bool {
    let vars = gathered(Seq::empty(), formula_order(st.literals, 0), true);
    &&& c.len() == st.literals.len()
    &&& forall|i: int|
        0 <= i < c.len() ==> signed_denotes(st.literals[i], #[trigger] c[i], names, vars)
}

/// Whether the text is made of these statements, with any white space and
/// comments between marks and names, and names bare or in quotes.
pub open spec fn states(text: Seq<char>, sts: Seq<Statement>) -> bool {
    &&& forall|i: int| 0 <= i < sts.len() ==> is_statement(#[trigger] sts[i])
    &&& exists|ps: Seq<Bit>| #[trigger]
        bits_fit(ps) && bits_text(ps) == text && bits_toks(ps) == statements_toks(sts, 0)
}

// ---------------------------------------------------------------------------
// Names in order of appearance.
// ---------------------------------------------------------------------------
proof fn lemma_gathered_concat(
    names: Seq<Seq<char>>,
    a: Seq<Seq<char>>,
    b: Seq<Seq<char>>,
    v: bool,
)
    ensures
        gathered(names, a + b, v) == gathered(gathered(names, a, v), b, v),
    decreases b.len(),
{
    if b.len() == 0 {
        assert(a + b =~= a);
    } else {
        lemma_gathered_concat(names, a, b.drop_last(), v);
        assert((a + b).drop_last() =~= a + b.drop_last());
        assert((a + b).last() == b.last());
    }
}

proof fn lemma_gathered_one(names: Seq<Seq<char>>, n: Seq<char>, v: bool)
    ensures
        gathered(names, seq![n], v) == if names_variable(n) == v {
            interned(names, n)
        } else {
            names
        },
        names_variable(n) == is_variable(n),
        interned(names, n).len() <= u32::MAX + 1 ==> id_in(names, n) < interned(names, n).len()
            && interned(names, n)[id_in(names, n) as int] == n,
{
    assert(seq![n].drop_last() =~= Seq::<Seq<char>>::empty());
    assert(gathered(names, Seq::<Seq<char>>::empty(), v) == names);
    assert(seq![n].last() == n);
    let all = interned(names, n);
    if !names.contains(n) {
        assert(all[names.len() as int] == n);
    }
    assert(all.contains(n));
}

proof fn lemma_gathered_prefix(names: Seq<Seq<char>>, ns: Seq<Seq<char>>, v: bool)
    ensures
        names.is_prefix_of(gathered(names, ns, v)),
    decreases ns.len(),
{
    if ns.len() > 0 {
        lemma_gathered_prefix(names, ns.drop_last(), v);
        let before = gathered(names, ns.drop_last(), v);
        let after = gathered(names, ns, v);
        assert(after.subrange(0, names.len() as int) =~= before.subrange(0, names.len() as int));
    } else {
        assert(names =~= names.subrange(0, names.len() as int));
    }
}

/// What is known after these names were read.
spec fn after_names(sc: Scope, sc1: Scope, ns: Seq<Seq<char>>) -> bool {
    sc1.names == gathered(sc.names, ns, false) && sc1.vars == gathered(sc.vars, ns, true)
}

spec fn fits_numbers(sc: Scope) -> bool {
    sc.names.len() <= u32::MAX && sc.vars.len() <= u32::MAX
}

proof fn lemma_after_both(a: Scope, b: Scope, c: Scope, m: Seq<Seq<char>>, n: Seq<Seq<char>>)
    requires
        after_names(a, b, m),
        after_names(b, c, n),
    ensures
        after_names(a, c, m + n),
        b.names.is_prefix_of(c.names),
        b.vars.is_prefix_of(c.vars),
        fits_numbers(c) ==> fits_numbers(b),
{
    lemma_gathered_concat(a.names, m, n, false);
    lemma_gathered_concat(a.vars, m, n, true);
    lemma_gathered_prefix(b.names, n, false);
    lemma_gathered_prefix(b.vars, n, true);
}

// ---------------------------------------------------------------------------
// Terms.
// ---------------------------------------------------------------------------
/// Whether these marks and names stand at `pos`.
pub(crate) open spec fn held(ts: Seq<(Tok, nat)>, pos: nat, part: Seq<Tok>) -> bool {
    &&& pos + part.len() <= ts.len()
    &&& forall|k: int| 0 <= k < part.len() ==> (#[trigger] ts[pos + k]).0 == part[k]
}

pub(crate) proof fn lemma_held_split(ts: Seq<(Tok, nat)>, pos: nat, a: Seq<Tok>, b: Seq<Tok>)
    ensures
        held(ts, pos, a + b) <==> held(ts, pos, a) && held(ts, pos + a.len(), b),
{
    let all = a + b;
    if held(ts, pos, all) {
        assert forall|k: int| 0 <= k < a.len() implies (#[trigger] ts[pos + k]).0 == a[k] by {
            assert(all[k] == a[k]);
        }
        let m = pos + a.len();
        assert forall|k: int| 0 <= k < b.len() implies (#[trigger] ts[m + k]).0 == b[k] by {
            assert(ts[pos + (a.len() + k)].0 == all[a.len() + k]);
        }
    }
    if held(ts, pos, a) && held(ts, pos + a.len(), b) {
        let m = pos + a.len();
        assert forall|k: int| 0 <= k < all.len() implies (#[trigger] ts[pos + k]).0 == all[k] by {
            if k >= a.len() {
                assert(ts[m + (k - a.len())].0 == b[k - a.len()]);
            }
        }
    }
}

proof fn lemma_held_one(ts: Seq<(Tok, nat)>, pos: nat, t: Tok)
    ensures
        held(ts, pos, seq![t]) <==> pos < ts.len() && ts[pos as int].0 == t,
        t matches Tok::Punct(m) ==> (held(ts, pos, seq![t]) <==> is_mark(ts, pos, m)),
{
    let z: int = 0;
    if held(ts, pos, seq![t]) {
        assert(ts[pos + z].0 == seq![t][z]);
    }
}

proof fn lemma_applied_list(items: Seq<Nest>)
    ensures
        is_applied(Nest::List(items)) == {
            &&& items.len() > 1
            &&& items[0] matches Nest::Name(n) && !names_variable(n)
            &&& forall|i: int| 1 <= i < items.len() ==> is_applied(#[trigger] items[i])
        },
{
    let x = Nest::List(items);
    if is_applied(x) {
        assert forall|i: int| 1 <= i < items.len() implies is_applied(#[trigger] items[i]) by {
            assert(is_applied(x->List_0[i]));
        }
    }
}

proof fn lemma_denotes_app(
    items: Seq<Nest>,
    f: u32,
    args: Seq<Tree>,
    names: Seq<Seq<char>>,
    vars: Seq<Seq<char>>,
)
    requires
        items.len() == args.len() + 1,
        f < names.len(),
        items[0] == Nest::Name(names[f as int]),
        forall|i: int|
            1 <= i < items.len() ==> denotes(#[trigger] items[i], args[i - 1], names, vars),
    ensures
        denotes(Nest::List(items), Tree::App(f, args), names, vars),
{
    let x = Nest::List(items);
    let t = Tree::App(f, args);
    assert(x->List_0 == items && t->App_1 == args);
}

/// A term that stands at `pos` is read there.
proof fn lemma_term_read(ts: Seq<(Tok, nat)>, pos: nat, x: Nest, sc: Scope)
    requires
        is_applied(x),
        held(ts, pos, term_toks(x)),
        !is_mark(ts, pos + term_toks(x).len(), Mark::LParen),
    ensures
        term_toks(x).len() > 0,
        ({
            let (r, sc1) = term_at(ts, pos, sc);
            &&& r matches Ok((t, end)) && end == pos + term_toks(x).len() && (fits_numbers(sc1)
                ==> denotes(x, t, sc1.names, sc1.vars))
            &&& after_names(sc, sc1, name_order(x))
        }),
    decreases x, 0nat,
{
    match x {
        Nest::Name(n) => {
            lemma_held_one(ts, pos, Tok::Ident(n));
            lemma_gathered_one(sc.names, n, false);
            lemma_gathered_one(sc.vars, n, true);
            lemma_gathered_one(sc.names, n, true);
            lemma_gathered_one(sc.vars, n, false);
        },
        Nest::List(items) => {
            lemma_applied_list(items);
            let name = items[0]->Name_0;
            lemma_gathered_one(sc.names, name, false);
            lemma_arguments_read(ts, pos, items, sc);
        },
    }
}

/// A symbol with its arguments that stands at `pos`.
#[verifier::rlimit(30)]
proof fn lemma_arguments_read(ts: Seq<(Tok, nat)>, pos: nat, items: Seq<Nest>, sc: Scope)
    requires
        items.len() > 1,
        items[0] is Name,
        !names_variable(items[0]->Name_0),
        forall|i: int| 1 <= i < items.len() ==> is_applied(#[trigger] items[i]),
        held(ts, pos, term_toks(Nest::List(items))),
    ensures
        ({
            let x = Nest::List(items);
            let name = items[0]->Name_0;
            let (r, sc1) = args_at(ts, pos + 2, sc);
            let sc2 = sc1.with_name(name);
            &&& pos < ts.len()
            &&& ts[pos as int].0 == Tok::Ident(name)
            &&& is_mark(ts, pos + 1, Mark::LParen)
            &&& term_toks(x).len() > 0
            &&& r matches Ok((args, p)) && is_mark(ts, p, Mark::RParen) && p + 1 == pos
                + term_toks(x).len() && (fits_numbers(sc2) ==> denotes(
                x,
                Tree::App(id_in(sc1.names, name), args),
                sc2.names,
                sc2.vars,
            ))
            &&& after_names(sc, sc2, name_order(x))
        }),
    decreases items, items.len() + 1,
{
    let x = Nest::List(items);
    let name = items[0]->Name_0;
    let open = seq![Tok::Ident(name), Tok::Punct(Mark::LParen)];
    let body = args_toks(items, 1);
    let close = seq![Tok::Punct(Mark::RParen)];
    lemma_held_split(ts, pos, open + body, close);
    lemma_held_split(ts, pos, open, body);
    let z: int = 0;
    let one: int = 1;
    assert(ts[pos + z].0 == open[z]);
    assert(ts[pos + one].0 == open[one]);
    let p = pos + 2 + body.len();
    assert((open + body).len() == 2 + body.len());
    lemma_held_one(ts, p, Tok::Punct(Mark::RParen));
    lemma_args_read(ts, pos + 2, items, 1, sc);
    let (r, sc1) = args_at(ts, pos + 2, sc);
    let sc2 = sc1.with_name(name);
    lemma_gathered_one(sc1.names, name, false);
    lemma_gathered_one(sc1.vars, name, true);
    lemma_after_both(sc, sc1, sc2, order_from(items, 1), seq![name]);
    if let Ok((args, _)) = r {
        if fits_numbers(sc2) {
            let f = id_in(sc1.names, name);
            assert forall|i: int| 1 <= i < items.len() implies denotes(
                #[trigger] items[i],
                args[i - 1],
                sc2.names,
                sc2.vars,
            ) by {
                assert(denotes(items[i], args[i - 1], sc1.names, sc1.vars));
                lemma_denotes_grows(
                    items[i],
                    args[i - 1],
                    sc1.names,
                    sc1.vars,
                    sc2.names,
                    sc2.vars,
                );
            }
            lemma_denotes_app(items, f, args, sc2.names, sc2.vars);
        }
    }
}

proof fn lemma_args_read(ts: Seq<(Tok, nat)>, pos: nat, items: Seq<Nest>, k: nat, sc: Scope)
    requires
        1 <= k < items.len(),
        forall|i: int| 1 <= i < items.len() ==> is_applied(#[trigger] items[i]),
        held(ts, pos, args_toks(items, k)),
        is_mark(ts, pos + args_toks(items, k).len(), Mark::RParen),
    ensures
        ({
            let (r, sc1) = args_at(ts, pos, sc);
            &&& r matches Ok((args, end)) && end == pos + args_toks(items, k).len() && args.len()
                == items.len() - k && (fits_numbers(sc1) ==> forall|i: int|
                k <= i < items.len() ==> denotes(
                    #[trigger] items[i],
                    args[i - k],
                    sc1.names,
                    sc1.vars,
                ))
            &&& after_names(sc, sc1, order_from(items, k))
        }),
    decreases items, items.len() - k,
{
    let x = items[k as int];
    let a = term_toks(x);
    let p = pos + a.len();
    if k + 1 == items.len() {
        lemma_term_read(ts, pos, x, sc);
        assert(order_from(items, k + 1) =~= Seq::<Seq<char>>::empty());
        assert(order_from(items, k) =~= name_order(x));
    } else {
        let comma = seq![Tok::Punct(Mark::Comma)];
        let b = args_toks(items, k + 1);
        lemma_held_split(ts, pos, a + comma, b);
        lemma_held_split(ts, pos, a, comma);
        lemma_held_one(ts, p, Tok::Punct(Mark::Comma));
        assert((a + comma).len() == a.len() + 1);
        lemma_term_read(ts, pos, x, sc);
        let (r, sc1) = term_at(ts, pos, sc);
        lemma_args_read(ts, p + 1, items, k + 1, sc1);
        let (r2, sc2) = args_at(ts, p + 1, sc1);
        lemma_after_both(sc, sc1, sc2, name_order(x), order_from(items, k + 1));
        let t = r->Ok_0.0;
        let rest = r2->Ok_0.0;
        let args = seq![t] + rest;
        if fits_numbers(sc2) {
            lemma_denotes_grows(x, t, sc1.names, sc1.vars, sc2.names, sc2.vars);
            assert forall|i: int| k <= i < items.len() implies denotes(
                #[trigger] items[i],
                args[i - k],
                sc2.names,
                sc2.vars,
            ) by {
                if i > k {
                    assert(args[i - k] == rest[i - (k + 1)]);
                }
            }
        }
    }
}

// ---------------------------------------------------------------------------
// Literals and statements.
// ---------------------------------------------------------------------------
/// A literal that stands at `pos` is read there.
proof fn lemma_literal_read(ts: Seq<(Tok, nat)>, pos: nat, l: Signed, sc: Scope)
    requires
        is_signed(l),
        held(ts, pos, signed_toks(l)),
        !is_mark(ts, pos + signed_toks(l).len(), Mark::LParen),
        !is_equality(ts, pos + signed_toks(l).len()),
    ensures
        signed_toks(l).len() > 0,
        ({
            let (r, sc1) = literal_at(ts, pos, sc);
            &&& r matches Ok((c, end)) && end == pos + signed_toks(l).len() && (fits_numbers(sc1)
                ==> signed_denotes(l, c, sc1.names, sc1.vars))
            &&& after_names(sc, sc1, name_order(l.atom))
        }),
{
    let x = l.atom;
    let sign: Seq<Tok> = if l.positive {
        Seq::empty()
    } else {
        seq![Tok::Punct(Mark::Tilde)]
    };
    let at = pos + sign.len();
    lemma_held_split(ts, pos, sign, term_toks(x));
    if !l.positive {
        lemma_held_one(ts, pos, Tok::Punct(Mark::Tilde));
    }
    match x {
        Nest::Name(n) => {
            lemma_held_one(ts, at, Tok::Ident(n));
            lemma_gathered_one(sc.names, n, false);
            lemma_gathered_one(sc.vars, n, true);
        },
        Nest::List(items) => {
            lemma_applied_list(items);
            let name = items[0]->Name_0;
            lemma_gathered_one(sc.names, name, false);
            lemma_arguments_read(ts, at, items, sc);
        },
    }
}

/// Literals with bars between them that stand at `pos`, before a closing
/// parenthesis, are read there.
proof fn lemma_literals_read(ts: Seq<(Tok, nat)>, pos: nat, ls: Seq<Signed>, k: nat, sc: Scope)
    requires
        k < ls.len(),
        forall|i: int| 0 <= i < ls.len() ==> is_signed(#[trigger] ls[i]),
        held(ts, pos, formula_toks(ls, k)),
        is_mark(ts, pos + formula_toks(ls, k).len(), Mark::RParen),
    ensures
        ({
            let (r, sc1) = literals_at(ts, pos, sc);
            &&& r matches Ok((c, end)) && end == pos + formula_toks(ls, k).len() && c.len()
                == ls.len() - k && (fits_numbers(sc1) ==> forall|i: int|
                k <= i < ls.len() ==> signed_denotes(
                    #[trigger] ls[i],
                    c[i - k],
                    sc1.names,
                    sc1.vars,
                ))
            &&& after_names(sc, sc1, formula_order(ls, k))
        }),
    decreases ls.len() - k,
{
    let l = ls[k as int];
    let a = signed_toks(l);
    let p = pos + a.len();
    if k + 1 == ls.len() {
        lemma_literal_read(ts, pos, l, sc);
        assert(formula_order(ls, k + 1) =~= Seq::<Seq<char>>::empty());
        assert(formula_order(ls, k) =~= name_order(l.atom));
    } else {
        let bar = seq![Tok::Punct(Mark::Pipe)];
        let b = formula_toks(ls, k + 1);
        lemma_held_split(ts, pos, a + bar, b);
        lemma_held_split(ts, pos, a, bar);
        lemma_held_one(ts, p, Tok::Punct(Mark::Pipe));
        assert((a + bar).len() == a.len() + 1);
        lemma_literal_read(ts, pos, l, sc);
        let (r, sc1) = literal_at(ts, pos, sc);
        lemma_literals_read(ts, p + 1, ls, k + 1, sc1);
        let (r2, sc2) = literals_at(ts, p + 1, sc1);
        lemma_after_both(sc, sc1, sc2, name_order(l.atom), formula_order(ls, k + 1));
        let c = r->Ok_0.0;
        let rest = r2->Ok_0.0;
        let all = seq![c] + rest;
        if fits_numbers(sc2) {
            lemma_denotes_grows(
                l.atom,
                Tree::App(c.predicate, c.args),
                sc1.names,
                sc1.vars,
                sc2.names,
                sc2.vars,
            );
            assert forall|i: int| k <= i < ls.len() implies signed_denotes(
                #[trigger] ls[i],
                all[i - k],
                sc2.names,
                sc2.vars,
            ) by {
                if i > k {
                    assert(all[i - k] == rest[i - (k + 1)]);
                }
            }
        }
    }
}

/// How a formula begins.
proof fn lemma_formula_begins(ls: Seq<Signed>)
    requires
        ls.len() > 0,
        is_signed(ls[0]),
    ensures
        formula_toks(ls, 0).len() > 0,
        formula_toks(ls, 0)[0] != Tok::Punct(Mark::LParen),
{
    let a = signed_toks(ls[0]);
    assert(a.len() > 0 && a[0] != Tok::Punct(Mark::LParen));
    assert(formula_toks(ls, 0)[0] == a[0]);
}

proof fn lemma_header_read(ts: Seq<(Tok, nat)>, pos: nat, st: Statement)
    requires
        held(ts, pos, header_toks(st)),
    ensures
        header_at(ts, pos) == Ok::<nat, ErrorView>(pos + 6),
{
    let h = header_toks(st);
    let a: int = 0;
    let b: int = 1;
    let c: int = 2;
    let d: int = 3;
    let e: int = 4;
    let f: int = 5;
    assert(ts[pos + a].0 == h[a] && ts[pos + b].0 == h[b] && ts[pos + c].0 == h[c]);
    assert(ts[pos + d].0 == h[d] && ts[pos + e].0 == h[e] && ts[pos + f].0 == h[f]);
}

/// A statement that stands at `pos` is read there.
#[verifier::rlimit(30)]
pub(crate) proof fn lemma_statement_read(ts: Seq<(Tok, nat)>, pos: nat, st: Statement, kn: Known)
    requires
        is_statement(st),
        held(ts, pos, statement_toks(st)),
    ensures
        ({
            let (r, kn1) = statement_at(ts, pos, kn);
            &&& r matches Ok((c, end)) && end == pos + statement_toks(st).len() && (kn1.in_range()
                ==> statement_denotes(st, c, kn1.names))
            &&& kn1.names == gathered(kn.names, formula_order(st.literals, 0), false)
        }),
{
    let ls = st.literals;
    let h = header_toks(st);
    let body = body_toks(st);
    let tail = seq![Tok::Punct(Mark::RParen), Tok::Punct(Mark::Dot)];
    let formula = formula_toks(ls, 0);
    lemma_held_split(ts, pos, h + body, tail);
    lemma_held_split(ts, pos, h, body);
    lemma_header_read(ts, pos, st);
    assert(h.len() == 6);
    let p = pos + 6;
    let q = p + body.len();
    assert((h + body).len() == 6 + body.len());
    assert(tail =~= seq![Tok::Punct(Mark::RParen)] + seq![Tok::Punct(Mark::Dot)]);
    lemma_held_split(ts, q, seq![Tok::Punct(Mark::RParen)], seq![Tok::Punct(Mark::Dot)]);
    lemma_held_one(ts, q, Tok::Punct(Mark::RParen));
    lemma_held_one(ts, q + 1, Tok::Punct(Mark::Dot));
    lemma_formula_begins(ls);
    let sc = kn.scope();
    let start = if st.wrapped {
        p + 1
    } else {
        p
    };
    if st.wrapped {
        let open = seq![Tok::Punct(Mark::LParen)];
        let close = seq![Tok::Punct(Mark::RParen)];
        lemma_held_split(ts, p, open + formula, close);
        lemma_held_split(ts, p, open, formula);
        lemma_held_one(ts, p, Tok::Punct(Mark::LParen));
        assert((open + formula).len() == 1 + formula.len());
        lemma_held_one(ts, p + 1 + formula.len(), Tok::Punct(Mark::RParen));
    } else {
        let z: int = 0;
        assert(ts[p + z].0 == formula[z]);
    }
    lemma_literals_read(ts, start, ls, 0, sc);
    lemma_literals_grow(ts, start, sc);
    let (r, sc1) = literals_at(ts, start, sc);
    let c = r->Ok_0.0;
    if sc1.known().in_range() {
        assert(sc.vars_built());
        lemma_vars_in_range(sc1);
        let vars = gathered(Seq::empty(), formula_order(ls, 0), true);
        assert(sc1.vars == vars);
        assert forall|i: int| 0 <= i < c.len() implies signed_denotes(
            ls[i],
            #[trigger] c[i],
            sc1.names,
            vars,
        ) by {
            assert(signed_denotes(ls[i], c[i - 0], sc1.names, sc1.vars));
        }
    }
}

proof fn lemma_statement_denotes_grows(
    st: Statement,
    c: Seq<Lit>,
    n1: Seq<Seq<char>>,
    n2: Seq<Seq<char>>,
)
    requires
        statement_denotes(st, c, n1),
        n1.is_prefix_of(n2),
    ensures
        statement_denotes(st, c, n2),
{
    let vars = gathered(Seq::empty(), formula_order(st.literals, 0), true);
    assert(vars =~= vars.subrange(0, vars.len() as int));
    assert forall|i: int| 0 <= i < c.len() implies signed_denotes(
        st.literals[i],
        #[trigger] c[i],
        n2,
        vars,
    ) by {
        assert(signed_denotes(st.literals[i], c[i], n1, vars));
        lemma_denotes_grows(
            st.literals[i].atom,
            Tree::App(c[i].predicate, c[i].args),
            n1,
            vars,
            n2,
            vars,
        );
    }
}

proof fn lemma_statements_read(
    ts: Seq<(Tok, nat)>,
    pos: nat,
    sts: Seq<Statement>,
    k: nat,
    kn: Known,
)
    requires
        k <= sts.len(),
        forall|i: int| 0 <= i < sts.len() ==> is_statement(#[trigger] sts[i]),
        held(ts, pos, statements_toks(sts, k)),
        pos + statements_toks(sts, k).len() == ts.len(),
    ensures
        ({
            let (r, kn1) = statements_at(ts, pos, kn);
            &&& r matches Ok(cs) && cs.len() == sts.len() - k && (kn1.in_range() ==> forall|i: int|
                k <= i < sts.len() ==> statement_denotes(#[trigger] sts[i], cs[i - k], kn1.names))
            &&& kn1.names == gathered(kn.names, statements_order(sts, k), false)
        }),
    decreases sts.len() - k,
{
    if k < sts.len() {
        let st = sts[k as int];
        let a = statement_toks(st);
        let b = statements_toks(sts, k + 1);
        lemma_held_split(ts, pos, a, b);
        lemma_statement_read(ts, pos, st, kn);
        assert(a.len() > 0);
        let (r, kn1) = statement_at(ts, pos, kn);
        let p = pos + a.len();
        lemma_statements_read(ts, p, sts, k + 1, kn1);
        lemma_statements_grow(ts, p, kn1);
        let (r2, kn2) = statements_at(ts, p, kn1);
        let c = r->Ok_0.0;
        let rest = r2->Ok_0;
        let cs = seq![c] + rest;
        let m = formula_order(st.literals, 0);
        let n = statements_order(sts, k + 1);
        lemma_gathered_concat(kn.names, m, n, false);
        lemma_gathered_prefix(kn1.names, n, false);
        if kn2.in_range() {
            lemma_statement_denotes_grows(st, c, kn1.names, kn2.names);
            assert forall|i: int| k <= i < sts.len() implies statement_denotes(
                #[trigger] sts[i],
                cs[i - k],
                kn2.names,
            ) by {
                if i > k {
                    assert(cs[i - k] == rest[i - (k + 1)]);
                }
            }
        }
    }
}

/// A text made of statements is read as the clauses that they stand for: `~`
/// alone decides the sign of a literal, the bars part the literals, and
/// predicates and symbols have all their arguments, in order, whatever their
/// number. Names, roles, white space, comments, quotes and one layer of
/// parentheses have no part in it. Symbols and variables are numbered in the
/// order of their first appearance, a symbol after its arguments.
pub proof fn statements_are_read_as_written(text: Seq<char>, sts: Seq<Statement>, kn: Known)
    requires
        states(text, sts),
    ensures
        ({
            let (r, kn1) = tptp_problem_of(text, kn);
            &&& r matches Ok(cs) && cs.len() == sts.len() && (kn1.in_range() ==> forall|i: int|
                0 <= i < cs.len() ==> statement_denotes(sts[i], #[trigger] cs[i], kn1.names))
            &&& kn1.names == gathered(kn.names, statements_order(sts, 0), false)
        }),
{
    let ps = choose|ps: Seq<Bit>| #[trigger]
        bits_fit(ps) && bits_text(ps) == text && bits_toks(ps) == statements_toks(sts, 0);
    marks_and_names_are_read(ps);
    let ts = scan(text, 0, 1)->Ok_0;
    let all = statements_toks(sts, 0);
    assert(kinds(ts).len() == ts.len());
    assert forall|k: int| 0 <= k < all.len() implies (#[trigger] ts[0nat + k]).0 == all[k] by {
        assert(kinds(ts)[k] == all[k]);
    }
    lemma_statements_read(ts, 0, sts, 0, kn);
    let (r, kn1) = tptp_problem_of(text, kn);
    let cs = r->Ok_0;
    if kn1.in_range() {
        assert forall|i: int| 0 <= i < cs.len() implies statement_denotes(
            sts[i],
            #[trigger] cs[i],
            kn1.names,
        ) by {
            assert(statement_denotes(sts[i], cs[i - 0], kn1.names));
        }
    }
}

// ---------------------------------------------------------------------------
// What is read was written.
// ---------------------------------------------------------------------------
proof fn lemma_term_written(ts: Seq<(Tok, nat)>, pos: nat, sc: Scope) -> (x: Nest)
    requires
        term_at(ts, pos, sc).0 is Ok,
    ensures
        is_applied(x),
        held(ts, pos, term_toks(x)),
        term_at(ts, pos, sc).0->Ok_0.1 == pos + term_toks(x).len(),
    decreases ts.len() - pos, 0nat,
{
    let name = ts[pos as int].0->Ident_0;
    if !is_variable(name) && is_mark(ts, pos + 1, Mark::LParen) {
        lemma_application_written(ts, pos, sc, name)
    } else {
        lemma_held_one(ts, pos, Tok::Ident(name));
        Nest::Name(name)
    }
}

#[verifier::rlimit(30)]
proof fn lemma_application_written(
    ts: Seq<(Tok, nat)>,
    pos: nat,
    sc: Scope,
    name: Seq<char>,
) -> (x: Nest)
    requires
        pos < ts.len(),
        ts[pos as int].0 == Tok::Ident(name),
        !is_variable(name),
        is_mark(ts, pos + 1, Mark::LParen),
        args_at(ts, pos + 2, sc).0 matches Ok((_, p)) && is_mark(ts, p, Mark::RParen),
    ensures
        x is List,
        is_applied(x),
        held(ts, pos, term_toks(x)),
        args_at(ts, pos + 2, sc).0->Ok_0.1 + 1 == pos + term_toks(x).len(),
    decreases ts.len() - pos - 1, 2nat,
{
    let p = args_at(ts, pos + 2, sc).0->Ok_0.1;
    let rest = lemma_args_written(ts, pos + 2, sc);
    let items = seq![Nest::Name(name)] + rest;
    let x = Nest::List(items);
    lemma_applied_list(items);
    assert(names_variable(name) == is_variable(name));
    assert forall|i: int| 1 <= i < items.len() implies is_applied(#[trigger] items[i]) by {
        assert(items[i] == rest[i - 1]);
    }
    lemma_args_shift(items, rest, 0);
    let open = seq![Tok::Ident(name), Tok::Punct(Mark::LParen)];
    let body = args_toks(items, 1);
    let close = seq![Tok::Punct(Mark::RParen)];
    assert(open =~= seq![Tok::Ident(name)] + seq![Tok::Punct(Mark::LParen)]);
    lemma_held_one(ts, pos, Tok::Ident(name));
    lemma_held_one(ts, pos + 1, Tok::Punct(Mark::LParen));
    lemma_held_split(ts, pos, seq![Tok::Ident(name)], seq![Tok::Punct(Mark::LParen)]);
    lemma_held_split(ts, pos, open, body);
    lemma_held_one(ts, p, Tok::Punct(Mark::RParen));
    lemma_held_split(ts, pos, open + body, close);
    x
}

proof fn lemma_args_shift(a: Seq<Nest>, b: Seq<Nest>, k: nat)
    requires
        a.len() == b.len() + 1,
        forall|i: int| 0 <= i < b.len() ==> a[i + 1] == #[trigger] b[i],
        k <= b.len(),
    ensures
        args_toks(a, k + 1) == args_toks(b, k),
    decreases b.len() - k,
{
    if k < b.len() {
        lemma_args_shift(a, b, k + 1);
        assert(a[k as int + 1] == b[k as int]);
    }
}

/// The arguments that were read.
proof fn lemma_args_written(ts: Seq<(Tok, nat)>, pos: nat, sc: Scope) -> (xs: Seq<Nest>)
    requires
        args_at(ts, pos, sc).0 is Ok,
    ensures
        xs.len() > 0,
        forall|i: int| 0 <= i < xs.len() ==> is_applied(#[trigger] xs[i]),
        held(ts, pos, args_toks(xs, 0)),
        args_at(ts, pos, sc).0->Ok_0.1 == pos + args_toks(xs, 0).len(),
    decreases ts.len() - pos, 1nat,
{
    let (r, sc1) = term_at(ts, pos, sc);
    let p = r->Ok_0.1;
    lemma_term_at(ts, pos, sc);
    let x = lemma_term_written(ts, pos, sc);
    if is_mark(ts, p, Mark::Comma) {
        let rest = lemma_args_written(ts, p + 1, sc1);
        let xs = seq![x] + rest;
        lemma_args_shift(xs, rest, 0);
        let comma = seq![Tok::Punct(Mark::Comma)];
        lemma_held_one(ts, p, Tok::Punct(Mark::Comma));
        lemma_held_split(ts, pos, term_toks(x), comma);
        lemma_held_split(ts, pos, term_toks(x) + comma, args_toks(rest, 0));
        assert forall|i: int| 0 <= i < xs.len() implies is_applied(#[trigger] xs[i]) by {
            if i > 0 {
                assert(xs[i] == rest[i - 1]);
            }
        }
        xs
    } else {
        let xs = seq![x];
        assert(args_toks(xs, 0) == term_toks(x));
        xs
    }
}

proof fn lemma_literal_written(ts: Seq<(Tok, nat)>, pos: nat, sc: Scope) -> (l: Signed)
    requires
        literal_at(ts, pos, sc).0 is Ok,
    ensures
        is_signed(l),
        held(ts, pos, signed_toks(l)),
        literal_at(ts, pos, sc).0->Ok_0.1 == pos + signed_toks(l).len(),
{
    let negated = is_mark(ts, pos, Mark::Tilde);
    let at = if negated {
        pos + 1
    } else {
        pos
    };
    let name = ts[at as int].0->Ident_0;
    assert(names_variable(name) == is_variable(name));
    let x = if is_mark(ts, at + 1, Mark::LParen) {
        lemma_application_written(ts, at, sc, name)
    } else {
        lemma_held_one(ts, at, Tok::Ident(name));
        Nest::Name(name)
    };
    let l = Signed { positive: !negated, atom: x };
    if negated {
        lemma_held_one(ts, pos, Tok::Punct(Mark::Tilde));
        lemma_held_split(ts, pos, seq![Tok::Punct(Mark::Tilde)], term_toks(x));
    } else {
        assert(signed_toks(l) =~= term_toks(x));
    }
    l
}

proof fn lemma_formula_shift(a: Seq<Signed>, b: Seq<Signed>, k: nat)
    requires
        a.len() == b.len() + 1,
        forall|i: int| 0 <= i < b.len() ==> a[i + 1] == #[trigger] b[i],
        k <= b.len(),
    ensures
        formula_toks(a, k + 1) == formula_toks(b, k),
    decreases b.len() - k,
{
    if k < b.len() {
        lemma_formula_shift(a, b, k + 1);
        assert(a[k as int + 1] == b[k as int]);
    }
}

proof fn lemma_literals_written(ts: Seq<(Tok, nat)>, pos: nat, sc: Scope) -> (ls: Seq<Signed>)
    requires
        literals_at(ts, pos, sc).0 is Ok,
    ensures
        ls.len() > 0,
        forall|i: int| 0 <= i < ls.len() ==> is_signed(#[trigger] ls[i]),
        held(ts, pos, formula_toks(ls, 0)),
        literals_at(ts, pos, sc).0->Ok_0.1 == pos + formula_toks(ls, 0).len(),
    decreases ts.len() - pos,
{
    let (r, sc1) = literal_at(ts, pos, sc);
    let p = r->Ok_0.1;
    lemma_literal_at(ts, pos, sc);
    let l = lemma_literal_written(ts, pos, sc);
    if is_mark(ts, p, Mark::Pipe) {
        let rest = lemma_literals_written(ts, p + 1, sc1);
        let ls = seq![l] + rest;
        lemma_formula_shift(ls, rest, 0);
        let bar = seq![Tok::Punct(Mark::Pipe)];
        lemma_held_one(ts, p, Tok::Punct(Mark::Pipe));
        lemma_held_split(ts, pos, signed_toks(l), bar);
        lemma_held_split(ts, pos, signed_toks(l) + bar, formula_toks(rest, 0));
        assert forall|i: int| 0 <= i < ls.len() implies is_signed(#[trigger] ls[i]) by {
            if i > 0 {
                assert(ls[i] == rest[i - 1]);
            }
        }
        ls
    } else {
        let ls = seq![l];
        assert(formula_toks(ls, 0) == signed_toks(l));
        ls
    }
}

#[verifier::rlimit(30)]
pub(crate) proof fn lemma_statement_written(ts: Seq<(Tok, nat)>, pos: nat, kn: Known) -> (st: Statement)
    requires
        statement_at(ts, pos, kn).0 is Ok,
    ensures
        is_statement(st),
        held(ts, pos, statement_toks(st)),
        statement_at(ts, pos, kn).0->Ok_0.1 == pos + statement_toks(st).len(),
{
    let p = pos + 6;
    assert(header_at(ts, pos) == Ok::<nat, ErrorView>(p));
    let sc = kn.scope();
    let wrapped = is_mark(ts, p, Mark::LParen);
    let start = if wrapped {
        p + 1
    } else {
        p
    };
    let ls = lemma_literals_written(ts, start, sc);
    let st = Statement {
        name: ts[(pos + 2) as int].0->Ident_0,
        role: ts[(pos + 4) as int].0->Ident_0,
        wrapped,
        literals: ls,
    };
    let h = header_toks(st);
    assert(held(ts, pos, h)) by {
        assert forall|k: int| 0 <= k < h.len() implies (#[trigger] ts[pos + k]).0 == h[k] by {
            assert(ts[pos as int].0 == h[0]);
            assert(k == 0 || k == 1 || k == 2 || k == 3 || k == 4 || k == 5);
        }
    }
    let formula = formula_toks(ls, 0);
    let body = body_toks(st);
    let open = seq![Tok::Punct(Mark::LParen)];
    let close = seq![Tok::Punct(Mark::RParen)];
    let dot = seq![Tok::Punct(Mark::Dot)];
    if wrapped {
        lemma_held_one(ts, p, Tok::Punct(Mark::LParen));
        lemma_held_split(ts, p, open, formula);
        lemma_held_one(ts, start + formula.len(), Tok::Punct(Mark::RParen));
        lemma_held_split(ts, p, open + formula, close);
    }
    let q = p + body.len();
    lemma_held_one(ts, q, Tok::Punct(Mark::RParen));
    lemma_held_one(ts, q + 1, Tok::Punct(Mark::Dot));
    lemma_held_split(ts, q, close, dot);
    let tail = seq![Tok::Punct(Mark::RParen), Tok::Punct(Mark::Dot)];
    assert(tail =~= close + dot);
    lemma_held_split(ts, pos, h, body);
    lemma_held_split(ts, pos, h + body, tail);
    st
}

proof fn lemma_statements_shift(a: Seq<Statement>, b: Seq<Statement>, k: nat)
    requires
        a.len() == b.len() + 1,
        forall|i: int| 0 <= i < b.len() ==> a[i + 1] == #[trigger] b[i],
        k <= b.len(),
    ensures
        statements_toks(a, k + 1) == statements_toks(b, k),
    decreases b.len() - k,
{
    if k < b.len() {
        lemma_statements_shift(a, b, k + 1);
        assert(a[k as int + 1] == b[k as int]);
    }
}

proof fn lemma_statements_written(ts: Seq<(Tok, nat)>, pos: nat, kn: Known) -> (sts: Seq<Statement>)
    requires
        pos <= ts.len(),
        statements_at(ts, pos, kn).0 is Ok,
    ensures
        forall|i: int| 0 <= i < sts.len() ==> is_statement(#[trigger] sts[i]),
        held(ts, pos, statements_toks(sts, 0)),
        pos + statements_toks(sts, 0).len() == ts.len(),
    decreases ts.len() - pos,
{
    if pos == ts.len() {
        Seq::empty()
    } else {
        lemma_statement_at(ts, pos, kn);
        let (r, kn1) = statement_at(ts, pos, kn);
        let p = r->Ok_0.1;
        let st = lemma_statement_written(ts, pos, kn);
        let rest = lemma_statements_written(ts, p, kn1);
        let sts = seq![st] + rest;
        lemma_statements_shift(sts, rest, 0);
        lemma_held_split(ts, pos, statement_toks(st), statements_toks(rest, 0));
        assert forall|i: int| 0 <= i < sts.len() implies is_statement(#[trigger] sts[i]) by {
            if i > 0 {
                assert(sts[i] == rest[i - 1]);
            }
        }
        sts
    }
}

/// A text is read as a problem exactly where it is made of statements.
pub proof fn problems_are_made_of_statements(text: Seq<char>, kn: Known)
    ensures
        tptp_problem_of(text, kn).0 is Ok <==> exists|sts: Seq<Statement>| #[trigger]
            states(text, sts),
{
    if tptp_problem_of(text, kn).0 is Ok {
        texts_are_made_of_bits(text);
        let ts = scan(text, 0, 1)->Ok_0;
        let ps = choose|ps: Seq<Bit>| #[trigger]
            bits_fit(ps) && bits_text(ps) == text && bits_toks(ps) == kinds(ts);
        let sts = lemma_statements_written(ts, 0, kn);
        let all = statements_toks(sts, 0);
        assert(kinds(ts) =~= all) by {
            assert forall|k: int| 0 <= k < all.len() implies kinds(ts)[k] == all[k] by {
                assert(ts[0nat + k].0 == all[k]);
            }
        }
        assert(bits_fit(ps) && bits_text(ps) == text && bits_toks(ps) == statements_toks(sts, 0));
        assert(states(text, sts));
    }
    if exists|sts: Seq<Statement>| #[trigger] states(text, sts) {
        let sts = choose|sts: Seq<Statement>| #[trigger] states(text, sts);
        statements_are_read_as_written(text, sts, kn);
    }
}

} // verus!
