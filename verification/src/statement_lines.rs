//! Where errors in texts in TPTP's clause normal form are: where the text
//! stops being made of marks and names, or from the first statement on that is
//! wrong.
use crate::parser::{Known, Scope};
use crate::statements::{
    bit_fits, bit_text, bit_tok, bits_fit, bits_text, bits_toks, held, in_name, is_statement,
    lemma_bit_read, lemma_bits_first, lemma_bits_rest, lemma_held_split, lemma_lexeme_bit,
    lemma_statement_read, lemma_statement_written, statement_toks, statements_toks, Bit, Statement,
};
use crate::tptp::{
    args_at, breaks, header_at, is_mark, kinds, lemma_args_at, lemma_literal_at, lemma_literals_at,
    lemma_scan_step, lemma_term_at, lexeme, line_at, literal_at, literals_at, scan, statement_at,
    statements_at, term_at, tptp_problem_of, unexpected, Mark, Tok,
};
use vstd::prelude::*;

verus! {

/// Number of line breaks in a text.
pub open spec fn break_count(s: Seq<char>) -> nat
    decreases s.len(),
{
    if s.len() == 0 {
        0
    } else {
        break_count(s.drop_last()) + (if s.last() == '\n' {
            1nat
        } else {
            0nat
        })
    }
}

/// The line of every mark and name, where the first piece stands in the given
/// line.
pub open spec fn tok_lines(ps: Seq<Bit>, line: nat) -> Seq<nat>
    decreases ps.len(),
{
    if ps.len() == 0 {
        Seq::empty()
    } else {
        let rest = tok_lines(ps.skip(1), line + break_count(bit_text(ps[0])));
        match ps[0] {
            Bit::Mark(_) => seq![line] + rest,
            Bit::Name(_) => seq![line] + rest,
            Bit::Quoted(_) => seq![line] + rest,
            _ => rest,
        }
    }
}

/// The line after the pieces.
pub open spec fn end_line(ps: Seq<Bit>, line: nat) -> nat
    decreases ps.len(),
{
    if ps.len() == 0 {
        line
    } else {
        end_line(ps.skip(1), line + break_count(bit_text(ps[0])))
    }
}

/// The lines of tokens.
pub open spec fn lines_of(ts: Seq<(Tok, nat)>) -> Seq<nat> {
    Seq::new(ts.len(), |i: int| ts[i].1)
}

proof fn lemma_no_breaks(s: Seq<char>)
    requires
        !s.contains('\n'),
    ensures
        break_count(s) == 0,
    decreases s.len(),
{
    if s.len() > 0 {
        assert forall|k: int| 0 <= k < s.drop_last().len() implies s.drop_last()[k] != '\n' by {
            assert(s.contains(s[k]));
        }
        assert(s.contains(s.last()));
        lemma_no_breaks(s.drop_last());
    }
}

proof fn lemma_breaks_push(s: Seq<char>, i: nat, j: nat)
    requires
        i <= j,
    ensures
        breaks(s, i, j + 1) == breaks(s, i, j) + (if s[j as int] == '\n' {
            1nat
        } else {
            0nat
        }),
    decreases j - i,
{
    if i < j {
        lemma_breaks_push(s, i + 1, j);
    } else {
        assert(breaks(s, j + 1, j + 1) == 0);
    }
}

proof fn lemma_breaks(s: Seq<char>, i: nat, j: nat)
    requires
        i <= j <= s.len(),
    ensures
        breaks(s, i, j) == break_count(s.subrange(i as int, j as int)),
    decreases j - i,
{
    let part = s.subrange(i as int, j as int);
    if i < j {
        let k = (j - 1) as nat;
        lemma_breaks(s, i, k);
        lemma_breaks_push(s, i, k);
        assert(part.drop_last() =~= s.subrange(i as int, k as int));
        assert(part.last() == s[k as int]);
    }
}

proof fn lemma_break_concat(a: Seq<char>, b: Seq<char>)
    ensures
        break_count(a + b) == break_count(a) + break_count(b),
    decreases b.len(),
{
    if b.len() == 0 {
        assert(a + b =~= a);
    } else {
        lemma_break_concat(a, b.drop_last());
        assert((a + b).drop_last() =~= a + b.drop_last());
        assert((a + b).last() == b.last());
    }
}

/// The line after a piece.
proof fn lemma_bit_line(s: Seq<char>, i: nat, line: nat, p: Bit)
    requires
        bit_fits(p),
        i + bit_text(p).len() <= s.len(),
        bit_text(p) == s.subrange(i as int, (i + bit_text(p).len()) as int),
        lexeme(s, i, line) matches Ok((t, e, _)) && t == bit_tok(p) && e == i + bit_text(p).len(),
        bit_text(p).len() > 0,
    ensures
        lexeme(s, i, line)->Ok_0.2 == line + break_count(bit_text(p)),
{
    let t = bit_text(p);
    assert(t[0] == s[i as int]);
    match p {
        Bit::Mark(m) => {
            assert(!t.contains('\n'));
            lemma_no_breaks(t);
        },
        Bit::Name(n) => {
            assert forall|k: int| 0 <= k < n.len() implies n[k] != '\n' by {
                assert(in_name(n[k]));
            }
            lemma_no_breaks(n);
            assert(in_name(n[0]));
        },
        Bit::Quoted(n) => {
            assert forall|k: int| 0 <= k < t.len() implies t[k] != '\n' by {
                if 0 < k < t.len() - 1 {
                    assert(t[k] == n[k - 1]);
                    assert(n.contains(n[k - 1]));
                }
            }
            lemma_no_breaks(t);
        },
        Bit::White(c) => {
            assert(t.drop_last() =~= Seq::<char>::empty());
            assert(break_count(Seq::<char>::empty()) == 0);
            assert(t.last() == c);
        },
        Bit::Remark(body) => {
            assert forall|k: int| 0 <= k < t.len() implies t[k] != '\n' by {
                if 0 < k {
                    assert(t[k] == body[k - 1]);
                    assert(body.contains(body[k - 1]));
                }
            }
            lemma_no_breaks(t);
        },
        Bit::Block(body) => {
            let e = i + t.len();
            assert(t[1] == s[(i + 1) as int]);
            lemma_breaks(s, i + 2, e);
            let a = seq!['/', '*'];
            let rest = body + seq!['*', '/'];
            assert(t =~= a + rest);
            assert(s.subrange((i + 2) as int, e as int) =~= rest) by {
                assert forall|k: int| 0 <= k < rest.len() implies s.subrange(
                    (i + 2) as int,
                    e as int,
                )[k] == rest[k] by {
                    assert(t[k + 2] == s.subrange(i as int, e as int)[k + 2]);
                }
            }
            lemma_break_concat(a, rest);
            assert(!a.contains('\n'));
            lemma_no_breaks(a);
        },
    }
}

/// Whether a piece stands at the start of a text.
pub open spec fn begins_with(s: Seq<char>, p: Bit) -> bool {
    bit_fits(p) && bit_text(p).is_prefix_of(s)
}

/// Pieces, then `r`.
proof fn lemma_scan_then(s: Seq<char>, i: nat, line: nat, ps: Seq<Bit>, r: Seq<char>)
    requires
        i <= s.len(),
        s.skip(i as int) == bits_text(ps) + r,
        bits_fit(ps),
        ps.len() > 0 && r.len() > 0 ==> !(ps.last() is Remark) && (ps.last() is Name ==> !in_name(
            r[0],
        )),
        r.len() > 0 ==> forall|p: Bit| !#[trigger] begins_with(r, p),
    ensures
        r.len() > 0 ==> (scan(s, i, line) matches Err(e) && e.line == end_line(ps, line)),
        r.len() == 0 ==> (scan(s, i, line) matches Ok(ts) && lines_of(ts) == tok_lines(
            ps,
            line,
        )),
    decreases ps.len(),
{
    lemma_bits_first(ps);
    let suffix = s.skip(i as int);
    if ps.len() == 0 {
        assert(suffix =~= r);
        if r.len() > 0 {
            assert(suffix[0] == s[i as int]);
            lemma_scan_step(s, i, line);
            if lexeme(s, i, line) is Ok {
                let p = lemma_lexeme_bit(s, i, line);
                let t = bit_text(p);
                assert(r.subrange(0, t.len() as int) =~= t) by {
                    assert forall|k: int| 0 <= k < t.len() implies r.subrange(
                        0,
                        t.len() as int,
                    )[k] == t[k] by {
                        assert(suffix[k] == s[i + k]);
                    }
                }
                assert(begins_with(r, p));
            }
        } else {
            assert(suffix.len() == 0);
            assert(lines_of(Seq::<(Tok, nat)>::empty()) =~= tok_lines(ps, line));
        }
    } else {
        lemma_bits_rest(ps);
        let p = ps[0];
        let rest = ps.skip(1);
        let t = bit_text(p);
        let e = i + t.len();
        let more = bits_text(rest) + r;
        assert(suffix =~= t + more);
        assert(e <= s.len());
        assert forall|k: int| 0 <= k < t.len() implies #[trigger] s[i + k] == t[k] by {
            assert(suffix[k] == t[k]);
        }
        assert(s.skip(e as int) =~= more) by {
            assert forall|k: int| 0 <= k < more.len() implies s.skip(e as int)[k] == more[k] by {
                assert(suffix[t.len() + k] == more[k]);
            }
        }
        lemma_bits_first(rest);
        if rest.len() > 0 {
            assert(rest.last() == ps.last());
        } else {
            assert(ps.last() == p);
            assert(more =~= r);
        }
        if e < s.len() {
            assert(s.skip(e as int)[0] == s[e as int]);
            if rest.len() > 0 {
                assert(more[0] == bits_text(rest)[0]);
                if bits_text(rest).len() > 1 {
                    assert(more[1] == bits_text(rest)[1]);
                    assert(s.skip(e as int)[1] == s[(e + 1) as int]);
                }
            }
        }
        lemma_bit_read(s, i, line, p);
        assert(t =~= s.subrange(i as int, e as int)) by {
            assert forall|k: int| 0 <= k < t.len() implies s.subrange(i as int, e as int)[k]
                == t[k] by {
                assert(s[i + k] == t[k]);
            }
        }
        lemma_bit_line(s, i, line, p);
        lemma_scan_step(s, i, line);
        let l = lexeme(s, i, line)->Ok_0.2;
        lemma_scan_then(s, e, l, rest, r);
        if r.len() == 0 {
            if let Some(k) = bit_tok(p) {
                let ts = scan(s, e, l)->Ok_0;
                assert(lines_of(seq![(k, line)] + ts) =~= seq![line] + lines_of(ts));
            }
        }
    }
}

/// Where a text is made of marks, names, white space and comments up to some
/// point, and what follows there is none of these, the error is in the line of
/// that point.
pub proof fn broken_texts_are_errors(ps: Seq<Bit>, r: Seq<char>, kn: Known)
    requires
        bits_fit(ps),
        r.len() > 0,
        ps.len() > 0 ==> !(ps.last() is Remark) && (ps.last() is Name ==> !in_name(r[0])),
        forall|p: Bit| !#[trigger] begins_with(r, p),
    ensures
        tptp_problem_of(bits_text(ps) + r, kn).0 matches Err(e) && e.line == end_line(ps, 1),
{
    let s = bits_text(ps) + r;
    assert(s.skip(0) =~= s);
    lemma_scan_then(s, 0, 1, ps, r);
}

// ---------------------------------------------------------------------------
// Errors in statements.
// ---------------------------------------------------------------------------
/// Whether lines do not go back.
spec fn in_line_order(ts: Seq<(Tok, nat)>) -> bool {
    forall|i: int, j: int|
        0 <= i <= j < ts.len() ==> (#[trigger] ts[i]).1 <= (#[trigger] ts[j]).1
}

/// Whether a line is that of the token at `pos` or of one after it.
spec fn from_on(ts: Seq<(Tok, nat)>, pos: nat, line: nat) -> bool {
    pos < ts.len() ==> ts[pos as int].1 <= line <= ts.last().1
}

proof fn lemma_line_at(ts: Seq<(Tok, nat)>, pos: nat, p: nat, what: Seq<char>)
    requires
        in_line_order(ts),
        pos <= p,
    ensures
        from_on(ts, pos, line_at(ts, p)),
        from_on(ts, pos, unexpected(ts, p, what).line),
{
    if pos < ts.len() {
        assert(ts[pos as int].1 <= ts[ts.len() - 1].1);
        if p < ts.len() {
            assert(ts[pos as int].1 <= ts[p as int].1 <= ts[ts.len() - 1].1);
        }
    }
}

proof fn lemma_any_line(ts: Seq<(Tok, nat)>, pos: nat)
    requires
        in_line_order(ts),
    ensures
        forall|p: nat| pos <= p ==> from_on(ts, pos, #[trigger] line_at(ts, p)),
        forall|p: nat, what: Seq<char>|
            pos <= p ==> from_on(ts, pos, (#[trigger] unexpected(ts, p, what)).line),
{
    assert forall|p: nat| pos <= p implies from_on(ts, pos, #[trigger] line_at(ts, p)) by {
        lemma_line_at(ts, pos, p, Seq::empty());
    }
    assert forall|p: nat, what: Seq<char>| pos <= p implies from_on(
        ts,
        pos,
        (#[trigger] unexpected(ts, p, what)).line,
    ) by {
        lemma_line_at(ts, pos, p, what);
    }
}

proof fn lemma_term_error(ts: Seq<(Tok, nat)>, start: nat, pos: nat, sc: Scope)
    requires
        in_line_order(ts),
        start <= pos,
    ensures
        term_at(ts, pos, sc).0 matches Err(e) ==> from_on(ts, start, e.line),
    decreases ts.len() - pos, 0nat,
{
    lemma_any_line(ts, start);
    if pos < ts.len() && is_mark(ts, pos + 1, Mark::LParen) {
        lemma_args_error(ts, start, pos + 2, sc);
        lemma_args_at(ts, pos + 2, sc);
    }
}

proof fn lemma_args_error(ts: Seq<(Tok, nat)>, start: nat, pos: nat, sc: Scope)
    requires
        in_line_order(ts),
        start <= pos,
    ensures
        args_at(ts, pos, sc).0 matches Err(e) ==> from_on(ts, start, e.line),
    decreases ts.len() - pos, 1nat,
{
    lemma_term_error(ts, start, pos, sc);
    lemma_term_at(ts, pos, sc);
    if let (Ok((_, p)), sc1) = term_at(ts, pos, sc) {
        if is_mark(ts, p, Mark::Comma) {
            lemma_args_error(ts, start, p + 1, sc1);
        }
    }
}

proof fn lemma_literal_error(ts: Seq<(Tok, nat)>, start: nat, pos: nat, sc: Scope)
    requires
        in_line_order(ts),
        start <= pos,
    ensures
        literal_at(ts, pos, sc).0 matches Err(e) ==> from_on(ts, start, e.line),
{
    lemma_any_line(ts, start);
    let at = if is_mark(ts, pos, Mark::Tilde) {
        pos + 1
    } else {
        pos
    };
    lemma_args_error(ts, start, at + 2, sc);
    lemma_args_at(ts, at + 2, sc);
}

proof fn lemma_literals_error(ts: Seq<(Tok, nat)>, start: nat, pos: nat, sc: Scope)
    requires
        in_line_order(ts),
        start <= pos,
    ensures
        literals_at(ts, pos, sc).0 matches Err(e) ==> from_on(ts, start, e.line),
    decreases ts.len() - pos,
{
    lemma_literal_error(ts, start, pos, sc);
    lemma_literal_at(ts, pos, sc);
    if let (Ok((_, p)), sc1) = literal_at(ts, pos, sc) {
        if is_mark(ts, p, Mark::Pipe) {
            lemma_literals_error(ts, start, p + 1, sc1);
        }
    }
}

proof fn lemma_statement_error(ts: Seq<(Tok, nat)>, pos: nat, kn: Known)
    requires
        in_line_order(ts),
    ensures
        statement_at(ts, pos, kn).0 matches Err(e) ==> from_on(ts, pos, e.line),
{
    lemma_any_line(ts, pos);
    if let Ok(p) = header_at(ts, pos) {
        let sc = kn.scope();
        let start = if is_mark(ts, p, Mark::LParen) {
            p + 1
        } else {
            p
        };
        lemma_literals_error(ts, pos, start, sc);
        lemma_literals_at(ts, start, sc);
    }
}

proof fn lemma_statements_error(
    ts: Seq<(Tok, nat)>,
    pos: nat,
    sts: Seq<Statement>,
    k: nat,
    kn: Known,
)
    requires
        in_line_order(ts),
        k <= sts.len(),
        forall|i: int| 0 <= i < sts.len() ==> is_statement(#[trigger] sts[i]),
        held(ts, pos, statements_toks(sts, k)),
        pos + statements_toks(sts, k).len() < ts.len(),
        forall|st: Statement|
            is_statement(st) ==> !#[trigger] held(
                ts,
                pos + statements_toks(sts, k).len(),
                statement_toks(st),
            ),
    ensures
        statements_at(ts, pos, kn).0 matches Err(e) && from_on(
            ts,
            pos + statements_toks(sts, k).len(),
            e.line,
        ),
    decreases sts.len() - k,
{
    if k == sts.len() {
        if statement_at(ts, pos, kn).0 is Ok {
            let st = lemma_statement_written(ts, pos, kn);
            assert(held(ts, pos + statements_toks(sts, k).len(), statement_toks(st)));
        }
        lemma_statement_error(ts, pos, kn);
    } else {
        let st = sts[k as int];
        let a = statement_toks(st);
        let b = statements_toks(sts, k + 1);
        lemma_held_split(ts, pos, a, b);
        lemma_statement_read(ts, pos, st, kn);
        assert(a.len() > 0);
        let kn1 = statement_at(ts, pos, kn).1;
        assert(pos + (a + b).len() == pos + a.len() + b.len());
        lemma_statements_error(ts, pos + a.len(), sts, k + 1, kn1);
    }
}

/// Whether the numbers are from `line` on and do not go back.
spec fn rising(ls: Seq<nat>, line: nat) -> bool {
    forall|i: int, j: int|
        0 <= i <= j < ls.len() ==> line <= (#[trigger] ls[i]) <= (#[trigger] ls[j])
}

proof fn lemma_tok_lines(ps: Seq<Bit>, line: nat)
    ensures
        rising(tok_lines(ps, line), line),
    decreases ps.len(),
{
    if ps.len() > 0 {
        let next = line + break_count(bit_text(ps[0]));
        let more = tok_lines(ps.skip(1), next);
        let all = tok_lines(ps, line);
        lemma_tok_lines(ps.skip(1), next);
        if bit_tok(ps[0]) is Some {
            assert(all == seq![line] + more);
            assert forall|i: int, j: int| 0 <= i <= j < all.len() implies line <= (
            #[trigger] all[i]) <= (#[trigger] all[j]) by {
                if i > 0 {
                    assert(all[i] == more[i - 1] && all[j] == more[j - 1]);
                } else if j > 0 {
                    assert(all[j] == more[j - 1]);
                    assert(next <= more[j - 1]);
                }
            }
        } else {
            assert(all == more);
            assert forall|i: int, j: int| 0 <= i <= j < all.len() implies line <= (
            #[trigger] all[i]) <= (#[trigger] all[j]) by {
                assert(next <= more[i] <= more[j]);
            }
        }
    }
}

/// Where statements are followed by marks and names with which no statement
/// begins, the error is in the line of the first of these or in a later one
/// with marks or names.
pub proof fn errors_are_in_the_first_wrong_statement(
    ps: Seq<Bit>,
    sts: Seq<Statement>,
    rest: Seq<Tok>,
    kn: Known,
)
    requires
        bits_fit(ps),
        forall|i: int| 0 <= i < sts.len() ==> is_statement(#[trigger] sts[i]),
        bits_toks(ps) == statements_toks(sts, 0) + rest,
        rest.len() > 0,
        forall|st: Statement|
            is_statement(st) ==> !(#[trigger] statement_toks(st)).is_prefix_of(rest),
    ensures
        ({
            let ls = tok_lines(ps, 1);
            let n = statements_toks(sts, 0).len();
            tptp_problem_of(bits_text(ps), kn).0 matches Err(e) && n < ls.len() && ls[n as int]
                <= e.line <= ls.last()
        }),
{
    let s = bits_text(ps);
    let none = Seq::<char>::empty();
    assert(s.skip(0) =~= s + none);
    lemma_scan_then(s, 0, 1, ps, none);
    crate::statements::marks_and_names_are_read(ps);
    let ts = scan(s, 0, 1)->Ok_0;
    let ls = tok_lines(ps, 1);
    let all = statements_toks(sts, 0);
    let n = all.len();
    lemma_tok_lines(ps, 1);
    assert(lines_of(ts).len() == ts.len() && kinds(ts).len() == ts.len());
    assert forall|a: int, b: int| 0 <= a <= b < ts.len() implies (#[trigger] ts[a]).1 <= (
    #[trigger] ts[b]).1 by {
        assert(lines_of(ts)[a] == ts[a].1 && lines_of(ts)[b] == ts[b].1);
        assert(ls[a] <= ls[b]);
    }
    assert(held(ts, 0, all)) by {
        assert forall|k: int| 0 <= k < all.len() implies (#[trigger] ts[0nat + k]).0 == all[k] by {
            assert(kinds(ts)[k] == (all + rest)[k]);
        }
    }
    assert forall|st: Statement| is_statement(st) implies !#[trigger] held(
        ts,
        n,
        statement_toks(st),
    ) by {
        let t = statement_toks(st);
        if held(ts, n, t) {
            assert(rest.subrange(0, t.len() as int) =~= t) by {
                assert forall|k: int| 0 <= k < t.len() implies rest.subrange(
                    0,
                    t.len() as int,
                )[k] == t[k] by {
                    assert(ts[n + k].0 == t[k]);
                    assert(kinds(ts)[n + k] == (all + rest)[n + k]);
                }
            }
            assert(t.is_prefix_of(rest));
        }
    }
    lemma_statements_error(ts, 0, sts, 0, kn);
    assert(lines_of(ts)[n as int] == ts[n as int].1);
    assert(lines_of(ts)[ts.len() - 1] == ts.last().1);
}

} // verus!
