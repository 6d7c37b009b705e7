//! Where errors in problem texts are: in the first clause that is wrong.
use crate::lists::{
    laid_out, lemma_expr_spelled, lemma_exprs_spelled, lemma_parens, lemma_stand_one,
    lemma_stand_split, lines, nest, spelled, spelled_from, stand_at, text_of, toks_plain,
    well_named, word, word_lines, words, words_are_read, words_of, Nest, Piece,
};
use crate::parser::{
    clause_of, clauses_of, expr_at, exprs_at, is_negation, items_at, literal_of, literals_of,
    problem_of, term_of, terms_of, tokens_from, Expr, Known, Scope, Tok,
};
use crate::reading::{is_clause, lemma_clause};
use vstd::prelude::*;

verus! {

/// Whether all lines in an expression are from `lo` to `hi`.
spec fn lines_in(x: Expr, lo: nat, hi: nat) -> bool
    decreases x,
{
    match x {
        Expr::Atom(line, _) => lo <= line <= hi,
        Expr::List(line, items) => {
            &&& lo <= line <= hi
            &&& forall|i: int| 0 <= i < items.len() ==> lines_in(#[trigger] items[i], lo, hi)
        },
    }
}

proof fn lemma_lines_list(line: nat, items: Seq<Expr>, lo: nat, hi: nat)
    ensures
        lines_in(Expr::List(line, items), lo, hi) == {
            &&& lo <= line <= hi
            &&& forall|i: int| 0 <= i < items.len() ==> lines_in(#[trigger] items[i], lo, hi)
        },
{
    let x = Expr::List(line, items);
    if lines_in(x, lo, hi) {
        assert forall|i: int| 0 <= i < items.len() implies lines_in(#[trigger] items[i], lo, hi) by {
            assert(lines_in(x->List_1[i], lo, hi));
        }
    }
}

proof fn lemma_lines_wider(x: Expr, lo: nat, hi: nat, lo2: nat, hi2: nat)
    requires
        lines_in(x, lo, hi),
        lo2 <= lo,
        hi <= hi2,
    ensures
        lines_in(x, lo2, hi2),
    decreases x,
{
    if let Expr::List(line, items) = x {
        assert forall|i: int| 0 <= i < items.len() implies lines_in(
            #[trigger] items[i],
            lo2,
            hi2,
        ) by {
            assert(lines_in(items[i], lo, hi));
            lemma_lines_wider(items[i], lo, hi, lo2, hi2);
        }
    }
}

/// Whether lines do not go back.
spec fn in_line_order(ts: Seq<(Tok, nat)>) -> bool {
    forall|i: int, j: int|
        0 <= i <= j < ts.len() ==> (#[trigger] ts[i]).1 <= (#[trigger] ts[j]).1
}

proof fn lemma_expr_lines(ts: Seq<(Tok, nat)>, pos: nat)
    requires
        in_line_order(ts),
    ensures
        expr_at(ts, pos) matches Ok((x, end)) ==> pos < end <= ts.len() && lines_in(
            x,
            ts[pos as int].1,
            ts[end - 1].1,
        ),
    decreases ts.len() - pos, 0nat,
{
    if pos < ts.len() {
        if ts[pos as int].0 == Tok::LParen {
            let line = ts[pos as int].1;
            lemma_items_lines(ts, pos + 1, line);
            if let Ok((items, end)) = items_at(ts, pos + 1, line) {
                assert(ts[pos as int].1 <= ts[(pos + 1) as int].1);
                assert(ts[pos as int].1 <= ts[end - 1].1);
                assert forall|i: int| 0 <= i < items.len() implies lines_in(
                    #[trigger] items[i],
                    line,
                    ts[end - 1].1,
                ) by {
                    lemma_lines_wider(
                        items[i],
                        ts[(pos + 1) as int].1,
                        ts[end - 1].1,
                        line,
                        ts[end - 1].1,
                    );
                }
                lemma_lines_list(line, items, line, ts[end - 1].1);
            }
        }
    }
}

proof fn lemma_items_lines(ts: Seq<(Tok, nat)>, pos: nat, line: nat)
    requires
        in_line_order(ts),
    ensures
        items_at(ts, pos, line) matches Ok((xs, end)) ==> pos < end <= ts.len() && forall|i: int|
            0 <= i < xs.len() ==> lines_in(#[trigger] xs[i], ts[pos as int].1, ts[end - 1].1),
    decreases ts.len() - pos, 1nat,
{
    if pos < ts.len() && ts[pos as int].0 != Tok::RParen {
        lemma_expr_lines(ts, pos);
        if let Ok((first, next)) = expr_at(ts, pos) {
            lemma_items_lines(ts, next, line);
            if let Ok((rest, end)) = items_at(ts, next, line) {
                let xs = seq![first] + rest;
                let lo = ts[pos as int].1;
                let hi = ts[end - 1].1;
                assert(lo <= ts[next as int].1);
                assert(ts[next - 1].1 <= hi);
                assert forall|i: int| 0 <= i < xs.len() implies lines_in(
                    #[trigger] xs[i],
                    lo,
                    hi,
                ) by {
                    if i == 0 {
                        lemma_lines_wider(first, lo, ts[next - 1].1, lo, hi);
                    } else {
                        assert(xs[i] == rest[i - 1]);
                        lemma_lines_wider(rest[i - 1], ts[next as int].1, hi, lo, hi);
                    }
                }
            }
        }
    }
}

proof fn lemma_term_error(x: Expr, sc: Scope, lo: nat, hi: nat)
    requires
        lines_in(x, lo, hi),
    ensures
        term_of(x, sc).0 matches Err(e) ==> lo <= e.line <= hi,
    decreases x, 0int,
{
    if let Expr::List(line, items) = x {
        lemma_lines_list(line, items, lo, hi);
        if items.len() > 0 {
            assert(lines_in(items[0], lo, hi));
            if let Expr::Atom(_, head) = items[0] {
                lemma_terms_error(items, 1, sc.with_name(head), lo, hi);
            }
        }
    }
}

proof fn lemma_terms_error(items: Seq<Expr>, k: nat, sc: Scope, lo: nat, hi: nat)
    requires
        forall|i: int| 0 <= i < items.len() ==> lines_in(#[trigger] items[i], lo, hi),
    ensures
        terms_of(items, k, sc).0 matches Err(e) ==> lo <= e.line <= hi,
    decreases items, items.len() - k,
{
    if k < items.len() {
        lemma_term_error(items[k as int], sc, lo, hi);
        if let (Ok(_), sc1) = term_of(items[k as int], sc) {
            lemma_terms_error(items, k + 1, sc1, lo, hi);
        }
    }
}

proof fn lemma_literal_error(x: Expr, sc: Scope, lo: nat, hi: nat)
    requires
        lines_in(x, lo, hi),
    ensures
        literal_of(x, sc).0 matches Err(e) ==> lo <= e.line <= hi,
{
    if let Expr::List(line, items) = x {
        lemma_lines_list(line, items, lo, hi);
    }
    let inner = if is_negation(x) && x->List_1.len() == 2 {
        x->List_1[1]
    } else {
        x
    };
    assert(lines_in(inner, lo, hi));
    if let Expr::List(line, items) = inner {
        lemma_lines_list(line, items, lo, hi);
        if items.len() > 0 {
            assert(lines_in(items[0], lo, hi));
            if let Expr::Atom(_, head) = items[0] {
                lemma_terms_error(items, 1, sc.with_name(head), lo, hi);
            }
        }
    }
}

proof fn lemma_literals_error(items: Seq<Expr>, k: nat, sc: Scope, lo: nat, hi: nat)
    requires
        forall|i: int| 0 <= i < items.len() ==> lines_in(#[trigger] items[i], lo, hi),
    ensures
        literals_of(items, k, sc).0 matches Err(e) ==> lo <= e.line <= hi,
    decreases items.len() - k,
{
    if k < items.len() {
        lemma_literal_error(items[k as int], sc, lo, hi);
        if let (Ok(_), sc1) = literal_of(items[k as int], sc) {
            lemma_literals_error(items, k + 1, sc1, lo, hi);
        }
    }
}

proof fn lemma_clause_error(x: Expr, kn: Known, lo: nat, hi: nat)
    requires
        lines_in(x, lo, hi),
    ensures
        clause_of(x, kn).0 matches Err(e) ==> lo <= e.line <= hi,
{
    if let Expr::List(line, items) = x {
        lemma_lines_list(line, items, lo, hi);
        if items.len() > 0 {
            assert(lines_in(items[0], lo, hi));
            lemma_literals_error(items, 1, kn.scope(), lo, hi);
        }
    }
}

/// The first form that is no clause gives the error.
proof fn lemma_clauses_error(forms: Seq<Expr>, k: nat, i: nat, kn: Known, lo: nat, hi: nat)
    requires
        k <= i < forms.len(),
        forall|j: int| 0 <= j < forms.len() ==> well_named(nest(#[trigger] forms[j])),
        forall|j: int| k <= j < i ==> is_clause(nest(#[trigger] forms[j])),
        !is_clause(nest(forms[i as int])),
        lines_in(forms[i as int], lo, hi),
    ensures
        clauses_of(forms, k, kn).0 matches Err(e) && lo <= e.line <= hi,
    decreases i - k,
{
    assert(well_named(nest(forms[k as int])));
    lemma_clause(forms[k as int], kn);
    if k == i {
        lemma_clause_error(forms[i as int], kn, lo, hi);
    } else {
        assert(is_clause(nest(forms[k as int])));
        lemma_clauses_error(forms, k + 1, i, clause_of(forms[k as int], kn).1, lo, hi);
    }
}

/// Number of words of the items from `k` up to `m`.
pub open spec fn width(xs: Seq<Nest>, k: nat, m: nat) -> nat
    decreases m - k,
{
    if k < m && k < xs.len() {
        spelled(xs[k as int]).len() + width(xs, k + 1, m)
    } else {
        0
    }
}

proof fn lemma_form_lines(ts: Seq<(Tok, nat)>, pos: nat, xs: Seq<Nest>, k: nat, i: nat)
    requires
        toks_plain(ts),
        in_line_order(ts),
        k <= i < xs.len(),
        forall|j: int| 0 <= j < xs.len() ==> well_named(#[trigger] xs[j]),
        stand_at(words(ts), pos, spelled_from(xs, k)),
        pos + spelled_from(xs, k).len() == ts.len(),
    ensures
        spelled(xs[i as int]).len() > 0,
        pos + width(xs, k, i) + spelled(xs[i as int]).len() <= ts.len(),
        exprs_at(ts, pos) matches Ok(es) && es.len() == xs.len() - k && lines_in(
            es[i - k],
            ts[(pos + width(xs, k, i)) as int].1,
            ts[pos + width(xs, k, i) + spelled(xs[i as int]).len() - 1].1,
        ),
    decreases i - k,
{
    let x = xs[k as int];
    lemma_stand_split(words(ts), pos, spelled(x), spelled_from(xs, k + 1));
    let e = lemma_expr_spelled(ts, pos, x);
    let next = pos + spelled(x).len();
    lemma_expr_lines(ts, pos);
    let rest = lemma_exprs_spelled(ts, next, xs, k + 1);
    let es = seq![e] + rest;
    if k < i {
        lemma_form_lines(ts, next, xs, k + 1, i);
        assert(es[i - k] == rest[i - (k + 1)]);
    }
}

/// Whether the numbers are from `line` on and do not go back.
spec fn rising(ls: Seq<nat>, line: nat) -> bool {
    forall|i: int, j: int|
        0 <= i <= j < ls.len() ==> line <= (#[trigger] ls[i]) <= (#[trigger] ls[j])
}

proof fn lemma_word_lines(ps: Seq<Piece>, line: nat)
    ensures
        rising(word_lines(ps, line), line),
    decreases ps.len(),
{
    if ps.len() > 0 {
        let rest = ps.skip(1);
        let all = word_lines(ps, line);
        if ps[0] is Word {
            let more = word_lines(rest, line);
            lemma_word_lines(rest, line);
            assert(all == seq![line] + more);
            assert forall|i: int, j: int| 0 <= i <= j < all.len() implies line <= (
            #[trigger] all[i]) <= (#[trigger] all[j]) by {
                if i > 0 {
                    assert(all[i] == more[i - 1] && all[j] == more[j - 1]);
                } else if j > 0 {
                    assert(all[j] == more[j - 1]);
                    assert(line <= more[j - 1]);
                }
            }
        } else {
            let next = if ps[0] == Piece::White('\n') {
                line + 1
            } else {
                line
            };
            lemma_word_lines(rest, next);
            assert(all == word_lines(rest, next));
            assert forall|i: int, j: int| 0 <= i <= j < all.len() implies line <= (
            #[trigger] all[i]) <= (#[trigger] all[j]) by {
                assert(next <= all[i] <= all[j]);
            }
        }
    }
}

/// Where a text is made of names and lists and the first of them that is no
/// clause is the one at position `i`, the error is in a line from that of its
/// first word to that of its last.
pub proof fn errors_are_in_the_first_wrong_clause(
    ps: Seq<Piece>,
    xs: Seq<Nest>,
    i: nat,
    kn: Known,
)
    requires
        laid_out(ps),
        words_of(ps) == spelled_from(xs, 0),
        forall|j: int| 0 <= j < xs.len() ==> well_named(#[trigger] xs[j]),
        i < xs.len(),
        forall|j: int| 0 <= j < i ==> is_clause(#[trigger] xs[j]),
        !is_clause(xs[i as int]),
    ensures
        ({
            let from = width(xs, 0, i) as int;
            let to = from + spelled(xs[i as int]).len() - 1;
            let ls = word_lines(ps, 1);
            problem_of(text_of(ps), kn).0 matches Err(e) && 0 <= from <= to < ls.len() && ls[from]
                <= e.line <= ls[to]
        }),
{
    let text = text_of(ps);
    words_are_read(ps);
    let ts = tokens_from(text, 0, 1);
    let ls = word_lines(ps, 1);
    lemma_word_lines(ps, 1);
    assert(lines(ts).len() == ts.len() && words(ts).len() == ts.len());
    assert forall|a: int, b: int| 0 <= a <= b < ts.len() implies (#[trigger] ts[a]).1 <= (
    #[trigger] ts[b]).1 by {
        assert(lines(ts)[a] == ts[a].1 && lines(ts)[b] == ts[b].1);
        assert(ls[a] <= ls[b]);
    }
    let all = spelled_from(xs, 0);
    assert(words(ts).subrange(0, all.len() as int) =~= all);
    lemma_form_lines(ts, 0, xs, 0, i);
    let es = lemma_exprs_spelled(ts, 0, xs, 0);
    assert forall|j: int| 0 <= j < es.len() implies nest(#[trigger] es[j]) == xs[j] by {
        assert(nest(es[j]) == xs[0nat + j]);
    }
    let from = width(xs, 0, i) as int;
    let to = from + spelled(xs[i as int]).len() - 1;
    assert(lines(ts)[from] == ts[from].1 && lines(ts)[to] == ts[to].1);
    assert forall|j: int| 0 <= j < es.len() implies well_named(nest(#[trigger] es[j])) by {
        assert(well_named(xs[j]));
    }
    assert forall|j: int| 0 <= j < i implies is_clause(nest(#[trigger] es[j])) by {
        assert(is_clause(xs[j]));
    }
    lemma_clauses_error(es, 0, i, kn, ts[from].1, ts[to].1);
}

proof fn lemma_stray(ts: Seq<(Tok, nat)>, pos: nat, xs: Seq<Nest>, k: nat)
    requires
        toks_plain(ts),
        k <= xs.len(),
        forall|j: int| 0 <= j < xs.len() ==> well_named(#[trigger] xs[j]),
        stand_at(words(ts), pos, spelled_from(xs, k)),
        pos + spelled_from(xs, k).len() < ts.len(),
        words(ts)[(pos + spelled_from(xs, k).len()) as int] == seq![')'],
    ensures
        exprs_at(ts, pos) matches Err(e) && e.line == ts[(pos + spelled_from(
            xs,
            k,
        ).len()) as int].1,
    decreases xs.len() - k,
{
    lemma_parens();
    let at = pos + spelled_from(xs, k).len();
    assert(words(ts)[at as int] == word(ts[at as int].0));
    if k == xs.len() {
        assert(ts[pos as int].0 == Tok::RParen) by {
            if let Tok::Symbol(n) = ts[pos as int].0 {
                assert(crate::lists::is_plain(n));
            }
        }
    } else {
        let x = xs[k as int];
        lemma_stand_split(words(ts), pos, spelled(x), spelled_from(xs, k + 1));
        let e = lemma_expr_spelled(ts, pos, x);
        lemma_stray(ts, pos + spelled(x).len(), xs, k + 1);
    }
}

/// Where a closing parenthesis follows names and lists, and no list is open,
/// the error is in its line, whatever comes after it.
pub proof fn stray_parentheses_are_errors(ps: Seq<Piece>, xs: Seq<Nest>, kn: Known)
    requires
        laid_out(ps),
        forall|j: int| 0 <= j < xs.len() ==> well_named(#[trigger] xs[j]),
        stand_at(words_of(ps), 0, spelled_from(xs, 0) + seq![seq![')']]),
    ensures
        problem_of(text_of(ps), kn).0 matches Err(e) && spelled_from(xs, 0).len() < word_lines(
            ps,
            1,
        ).len() && e.line == word_lines(ps, 1)[spelled_from(xs, 0).len() as int],
{
    words_are_read(ps);
    let ts = tokens_from(text_of(ps), 0, 1);
    let n = spelled_from(xs, 0).len();
    assert(lines(ts).len() == ts.len() && words(ts).len() == ts.len());
    lemma_stand_split(words(ts), 0, spelled_from(xs, 0), seq![seq![')']]);
    lemma_stand_one(words(ts), n, seq![')']);
    lemma_stray(ts, 0, xs, 0);
    assert(lines(ts)[n as int] == ts[n as int].1);
}

/// The words from `opens[k]` on, where a list is opened after each of `opens`
/// but the last, and none of these is closed.
pub open spec fn unclosed(opens: Seq<Seq<Nest>>, k: nat) -> Seq<Seq<char>>
    decreases opens.len() - k,
{
    if k >= opens.len() {
        Seq::empty()
    } else {
        spelled_from(opens[k as int], 0) + after_open(opens, k)
    }
}

/// The words after `opens[k]`.
pub open spec fn after_open(opens: Seq<Seq<Nest>>, k: nat) -> Seq<Seq<char>>
    decreases opens.len() - k,
{
    if k + 1 >= opens.len() {
        Seq::empty()
    } else {
        seq![seq!['(']] + (spelled_from(opens[k as int + 1], 0) + after_open(opens, k + 1))
    }
}

/// Whether all names can stand as names.
pub open spec fn all_named(opens: Seq<Seq<Nest>>) -> bool {
    forall|k: int, j: int|
        0 <= k < opens.len() && 0 <= j < opens[k].len() ==> well_named(#[trigger] opens[k][j])
}

proof fn lemma_named_row(opens: Seq<Seq<Nest>>, k: nat)
    requires
        all_named(opens),
        k < opens.len(),
    ensures
        forall|j: int|
            0 <= j < opens[k as int].len() ==> well_named(#[trigger] opens[k as int][j]),
{
}

/// The list that was opened last and is not closed, where the items before
/// `pos` were read.
proof fn lemma_unclosed(
    ts: Seq<(Tok, nat)>,
    pos: nat,
    line: nat,
    opens: Seq<Seq<Nest>>,
    k: nat,
    j: nat,
)
    requires
        toks_plain(ts),
        all_named(opens),
        k < opens.len(),
        j <= opens[k as int].len(),
        stand_at(words(ts), pos, spelled_from(opens[k as int], j) + after_open(opens, k)),
        pos + spelled_from(opens[k as int], j).len() + after_open(opens, k).len() == ts.len(),
    ensures
        spelled_from(opens.last(), 0).len() < ts.len() || k + 1 == opens.len(),
        items_at(ts, pos, line) matches Err(e) && e.line == if k + 1 == opens.len() {
            line
        } else {
            ts[ts.len() - spelled_from(opens.last(), 0).len() - 1].1
        },
    decreases opens.len() - k, opens[k as int].len() - j + 1,
{
    let ws = words(ts);
    let row = opens[k as int];
    lemma_parens();
    lemma_named_row(opens, k);
    lemma_stand_split(ws, pos, spelled_from(row, j), after_open(opens, k));
    if j < row.len() {
        let x = row[j as int];
        lemma_stand_split(ws, pos, spelled(x), spelled_from(row, j + 1));
        let e = lemma_expr_spelled(ts, pos, x);
        let next = pos + spelled(x).len();
        lemma_stand_split(ws, next, spelled_from(row, j + 1), after_open(opens, k));
        assert(spelled_from(row, j).len() == spelled(x).len() + spelled_from(row, j + 1).len());
        lemma_unclosed(ts, next, line, opens, k, j + 1);
        assert(ts[pos as int].0 != Tok::RParen);
    } else if k + 1 < opens.len() {
        lemma_open_list(ts, pos, opens, k);
        assert(ts[pos as int].0 == Tok::LParen);
    }
}

/// A list is opened at `pos`.
proof fn lemma_open_list(ts: Seq<(Tok, nat)>, pos: nat, opens: Seq<Seq<Nest>>, k: nat)
    requires
        toks_plain(ts),
        all_named(opens),
        k + 1 < opens.len(),
        stand_at(words(ts), pos, after_open(opens, k)),
        pos + after_open(opens, k).len() == ts.len(),
    ensures
        pos < ts.len(),
        ts[pos as int].0 == Tok::LParen,
        spelled_from(opens.last(), 0).len() < ts.len(),
        expr_at(ts, pos) matches Err(e) && e.line == ts[ts.len() - spelled_from(
            opens.last(),
            0,
        ).len() - 1].1,
    decreases opens.len() - k, 0nat,
{
    let ws = words(ts);
    let row = opens[k as int + 1];
    let open = seq![seq!['(']];
    let body = spelled_from(row, 0) + after_open(opens, k + 1);
    lemma_parens();
    lemma_stand_split(ws, pos, open, body);
    lemma_stand_one(ws, pos, seq!['(']);
    assert(ws[pos as int] == word(ts[pos as int].0));
    assert(ts[pos as int].0 == Tok::LParen) by {
        if let Tok::Symbol(n) = ts[pos as int].0 {
            assert(crate::lists::is_plain(n));
        }
    }
    assert(open.len() == 1);
    assert(body.len() == spelled_from(row, 0).len() + after_open(opens, k + 1).len());
    lemma_unclosed(ts, pos + 1, ts[pos as int].1, opens, k + 1, 0);
    if k + 2 == opens.len() {
        assert(row == opens.last());
        assert(after_open(opens, k + 1).len() == 0);
    }
}

proof fn lemma_unclosed_top(
    ts: Seq<(Tok, nat)>,
    pos: nat,
    opens: Seq<Seq<Nest>>,
    j: nat,
)
    requires
        toks_plain(ts),
        all_named(opens),
        opens.len() > 1,
        j <= opens[0].len(),
        stand_at(words(ts), pos, spelled_from(opens[0], j) + after_open(opens, 0)),
        pos + spelled_from(opens[0], j).len() + after_open(opens, 0).len() == ts.len(),
    ensures
        spelled_from(opens.last(), 0).len() < ts.len(),
        exprs_at(ts, pos) matches Err(e) && e.line == ts[ts.len() - spelled_from(
            opens.last(),
            0,
        ).len() - 1].1,
    decreases opens[0].len() - j,
{
    let ws = words(ts);
    let row = opens[0];
    lemma_named_row(opens, 0);
    lemma_stand_split(ws, pos, spelled_from(row, j), after_open(opens, 0));
    if j < row.len() {
        let x = row[j as int];
        lemma_stand_split(ws, pos, spelled(x), spelled_from(row, j + 1));
        let e = lemma_expr_spelled(ts, pos, x);
        let next = pos + spelled(x).len();
        lemma_stand_split(ws, next, spelled_from(row, j + 1), after_open(opens, 0));
        assert(spelled_from(row, j).len() == spelled(x).len() + spelled_from(row, j + 1).len());
        lemma_unclosed_top(ts, next, opens, j + 1);
    } else {
        lemma_open_list(ts, pos, opens, 0);
    }
}

/// Where lists are opened and not closed before the text ends, the error is in
/// the line in which the last of them is opened.
pub proof fn unclosed_lists_are_errors(ps: Seq<Piece>, opens: Seq<Seq<Nest>>, kn: Known)
    requires
        laid_out(ps),
        all_named(opens),
        opens.len() > 1,
        words_of(ps) == unclosed(opens, 0),
    ensures
        ({
            let ls = word_lines(ps, 1);
            let at = ls.len() - spelled_from(opens.last(), 0).len() - 1;
            problem_of(text_of(ps), kn).0 matches Err(e) && 0 <= at < ls.len() && e.line == ls[at]
        }),
{
    words_are_read(ps);
    let ts = tokens_from(text_of(ps), 0, 1);
    let all = unclosed(opens, 0);
    assert(lines(ts).len() == ts.len() && words(ts).len() == ts.len());
    assert(words(ts).subrange(0, all.len() as int) =~= all);
    lemma_unclosed_top(ts, 0, opens, 0);
    let at = ts.len() - spelled_from(opens.last(), 0).len() - 1;
    assert(lines(ts)[at] == ts[at].1);
}

} // verus!
