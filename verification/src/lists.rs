//! Texts of nested lists: how names, parentheses, white space and remarks lie
//! in a text, and what the reader of the list format makes of them.
use crate::parser::{
    expr_at, exprs_at, items_at, line_end, symbol_end, tokens_from, ErrorView, Expr, Tok,
};
use crate::text::white_space;
use vstd::prelude::*;

verus! {

/// A name, or a list of names and lists.
pub enum Nest {
    Name(Seq<char>),
    List(Seq<Nest>),
}

/// Whether a text can stand as a name.
pub open spec fn is_plain(w: Seq<char>) -> bool {
    &&& w.len() > 0
    &&& forall|i: int|
        0 <= i < w.len() ==> !white_space(#[trigger] w[i]) && w[i] != '(' && w[i] != ')' && w[i]
            != ';'
}

/// Whether every name in it can stand as a name.
pub open spec fn well_named(x: Nest) -> bool
    decreases x,
{
    match x {
        Nest::Name(n) => is_plain(n),
        Nest::List(items) => forall|i: int|
            0 <= i < items.len() ==> well_named(#[trigger] items[i]),
    }
}

/// The words that spell it: names and parentheses.
pub open spec fn spelled(x: Nest) -> Seq<Seq<char>>
    decreases x, 0nat,
{
    match x {
        Nest::Name(n) => seq![n],
        Nest::List(items) => seq![seq!['(']] + spelled_from(items, 0) + seq![seq![')']],
    }
}

/// The words that spell the items from position `k` on.
pub open spec fn spelled_from(items: Seq<Nest>, k: nat) -> Seq<Seq<char>>
    decreases items, items.len() - k,
{
    if k < items.len() {
        spelled(items[k as int]) + spelled_from(items, k + 1)
    } else {
        Seq::empty()
    }
}

/// A piece of a text: a word, a character of white space, or a remark up to
/// the end of its line.
pub enum Piece {
    Word(Seq<char>),
    White(char),
    Remark(Seq<char>),
}

/// The characters of a piece.
pub open spec fn piece_text(p: Piece) -> Seq<char> {
    match p {
        Piece::Word(w) => w,
        Piece::White(c) => seq![c],
        Piece::Remark(body) => seq![';'] + body,
    }
}

/// The text that the pieces make, one after the other.
pub open spec fn text_of(ps: Seq<Piece>) -> Seq<char>
    decreases ps.len(),
{
    if ps.len() == 0 {
        Seq::empty()
    } else {
        piece_text(ps[0]) + text_of(ps.skip(1))
    }
}

/// The words among the pieces.
pub open spec fn words_of(ps: Seq<Piece>) -> Seq<Seq<char>>
    decreases ps.len(),
{
    if ps.len() == 0 {
        Seq::empty()
    } else {
        match ps[0] {
            Piece::Word(w) => seq![w] + words_of(ps.skip(1)),
            _ => words_of(ps.skip(1)),
        }
    }
}

/// Whether the piece is a name.
pub open spec fn is_name_piece(p: Piece) -> bool {
    p matches Piece::Word(w) && is_plain(w)
}

/// Whether a piece is what it is said to be.
pub open spec fn piece_fits(p: Piece) -> bool {
    match p {
        Piece::Word(w) => w == seq!['('] || w == seq![')'] || is_plain(w),
        Piece::White(c) => white_space(c),
        Piece::Remark(body) => !body.contains('\n'),
    }
}

/// Whether the pieces can stand one after the other: a remark ends with its
/// line, and something stands between two names.
pub open spec fn laid_out(ps: Seq<Piece>) -> bool {
    &&& forall|i: int| 0 <= i < ps.len() ==> piece_fits(#[trigger] ps[i])
    &&& forall|i: int|
        0 <= i < ps.len() - 1 ==> {
            &&& (#[trigger] ps[i]) is Remark ==> ps[i + 1] == Piece::White('\n')
            &&& is_name_piece(ps[i]) ==> !is_name_piece(ps[i + 1])
        }
}

/// The word of a token.
pub open spec fn word(t: Tok) -> Seq<char> {
    match t {
        Tok::LParen => seq!['('],
        Tok::RParen => seq![')'],
        Tok::Symbol(n) => n,
    }
}

/// The words of tokens.
pub open spec fn words(ts: Seq<(Tok, nat)>) -> Seq<Seq<char>> {
    Seq::new(ts.len(), |i: int| word(ts[i].0))
}

/// The lines of tokens.
pub open spec fn lines(ts: Seq<(Tok, nat)>) -> Seq<nat> {
    Seq::new(ts.len(), |i: int| ts[i].1)
}

/// The line of every word, where the first piece stands in the given line.
pub open spec fn word_lines(ps: Seq<Piece>, line: nat) -> Seq<nat>
    decreases ps.len(),
{
    if ps.len() == 0 {
        Seq::empty()
    } else {
        match ps[0] {
            Piece::Word(_) => seq![line] + word_lines(ps.skip(1), line),
            Piece::White('\n') => word_lines(ps.skip(1), line + 1),
            _ => word_lines(ps.skip(1), line),
        }
    }
}

/// Whether the names among the tokens can stand as names.
pub open spec fn toks_plain(ts: Seq<(Tok, nat)>) -> bool {
    forall|i: int| 0 <= i < ts.len() ==> ((#[trigger] ts[i]).0 matches Tok::Symbol(n) ==> is_plain(n))
}

/// An expression without its lines.
pub open spec fn nest(x: Expr) -> Nest
    decreases x,
{
    match x {
        Expr::Atom(_, name) => Nest::Name(name),
        Expr::List(_, items) => Nest::List(
            Seq::new(
                items.len(),
                |i: int|
                    if 0 <= i < items.len() {
                        nest(items[i])
                    } else {
                        Nest::Name(Seq::empty())
                    },
            ),
        ),
    }
}

/// Expressions without their lines.
pub open spec fn nests(xs: Seq<Expr>) -> Seq<Nest> {
    Seq::new(xs.len(), |i: int| nest(xs[i]))
}

pub(crate) proof fn lemma_nest_list(line: nat, items: Seq<Expr>)
    ensures
        nest(Expr::List(line, items)) == Nest::List(nests(items)),
{
    assert(nest(Expr::List(line, items))->List_0 =~= nests(items));
}

// ---------------------------------------------------------------------------
// Words.
// ---------------------------------------------------------------------------
proof fn lemma_symbol_end_at(s: Seq<char>, i: nat, e: nat)
    requires
        i <= e <= s.len(),
        forall|k: int|
            i <= k < e ==> !white_space(#[trigger] s[k]) && s[k] != '(' && s[k] != ')' && s[k]
                != ';',
        e < s.len() ==> white_space(s[e as int]) || s[e as int] == '(' || s[e as int] == ')'
            || s[e as int] == ';',
    ensures
        symbol_end(s, i) == e,
    decreases e - i,
{
    if i < e {
        lemma_symbol_end_at(s, i + 1, e);
    }
}

proof fn lemma_line_end_at(s: Seq<char>, i: nat, e: nat)
    requires
        i <= e <= s.len(),
        forall|k: int| i <= k < e ==> (#[trigger] s[k]) != '\n',
        e < s.len() ==> s[e as int] == '\n',
    ensures
        line_end(s, i) == e,
    decreases e - i,
{
    if i < e {
        lemma_line_end_at(s, i + 1, e);
    }
}

proof fn lemma_words_cons(t: (Tok, nat), ts: Seq<(Tok, nat)>)
    ensures
        words(seq![t] + ts) == seq![word(t.0)] + words(ts),
        lines(seq![t] + ts) == seq![t.1] + lines(ts),
        toks_plain(seq![t] + ts) == (toks_plain(seq![t]) && toks_plain(ts)),
{
    let all = seq![t] + ts;
    assert(words(all) =~= seq![word(t.0)] + words(ts));
    assert(lines(all) =~= seq![t.1] + lines(ts));
    assert(forall|i: int| 0 <= i < ts.len() ==> #[trigger] ts[i] == all[i + 1]);
    assert(all[0] == t && seq![t][0] == t);
    if toks_plain(all) {
        assert forall|i: int| 0 <= i < ts.len() implies ((#[trigger] ts[i]).0 matches Tok::Symbol(
            n,
        ) ==> is_plain(n)) by {
            assert(all[i + 1] == ts[i]);
        }
    }
}

/// The first character after a piece.
proof fn lemma_first_char(ps: Seq<Piece>)
    requires
        laid_out(ps),
    ensures
        ps.len() > 0 ==> text_of(ps).len() > 0 && text_of(ps)[0] == piece_text(ps[0])[0]
            && piece_text(ps[0]).len() > 0,
        ps.len() > 0 && !is_name_piece(ps[0]) ==> white_space(text_of(ps)[0]) || text_of(ps)[0]
            == '(' || text_of(ps)[0] == ')' || text_of(ps)[0] == ';',
        ps.len() == 0 ==> text_of(ps).len() == 0,
{
    if ps.len() > 0 {
        assert(piece_fits(ps[0]));
    }
}

proof fn lemma_laid_out_rest(ps: Seq<Piece>)
    requires
        laid_out(ps),
        ps.len() > 0,
    ensures
        laid_out(ps.skip(1)),
        piece_fits(ps[0]),
        ps.len() > 1 ==> ps.skip(1)[0] == ps[1],
        ps.len() > 1 && ps[0] is Remark ==> ps[1] == Piece::White('\n'),
        ps.len() > 1 && is_name_piece(ps[0]) ==> !is_name_piece(ps[1]),
{
    let rest = ps.skip(1);
    assert forall|i: int| 0 <= i < rest.len() implies piece_fits(#[trigger] rest[i]) by {
        assert(rest[i] == ps[i + 1]);
    }
    assert forall|i: int| 0 <= i < rest.len() - 1 implies {
        &&& (#[trigger] rest[i]) is Remark ==> rest[i + 1] == Piece::White('\n')
        &&& is_name_piece(rest[i]) ==> !is_name_piece(rest[i + 1])
    } by {
        assert(rest[i] == ps[i + 1]);
    }
    if ps.len() > 1 {
        let z: int = 0;
        assert(ps[z] is Remark ==> ps[z + 1] == Piece::White('\n'));
    }
}

/// The tokens of a text that is laid out are its words.
#[verifier::rlimit(30)]
proof fn lemma_lex(s: Seq<char>, i: nat, line: nat, ps: Seq<Piece>)
    requires
        i <= s.len(),
        s.skip(i as int) == text_of(ps),
        laid_out(ps),
    ensures
        words(tokens_from(s, i, line)) == words_of(ps),
        lines(tokens_from(s, i, line)) == word_lines(ps, line),
        toks_plain(tokens_from(s, i, line)),
    decreases ps.len(),
{
    lemma_first_char(ps);
    if ps.len() == 0 {
        assert(s.skip(i as int).len() == 0);
        assert(words(tokens_from(s, i, line)) =~= words_of(ps));
        assert(lines(tokens_from(s, i, line)) =~= word_lines(ps, line));
    } else {
        lemma_laid_out_rest(ps);
        let p = ps[0];
        let rest = ps.skip(1);
        let t = piece_text(p);
        let e = i + t.len();
        let suffix = s.skip(i as int);
        assert(suffix.len() == t.len() + text_of(rest).len());
        assert(e <= s.len());
        assert forall|k: int| 0 <= k < t.len() implies #[trigger] s[i + k] == t[k] by {
            assert(suffix[k] == t[k]);
        }
        assert(s.skip(e as int) =~= text_of(rest)) by {
            assert forall|k: int| 0 <= k < text_of(rest).len() implies s.skip(e as int)[k]
                == text_of(rest)[k] by {
                assert(suffix[t.len() + k] == text_of(rest)[k]);
            }
        }
        lemma_first_char(rest);
        if e < s.len() {
            assert(s.skip(e as int)[0] == s[e as int]);
        }
        assert(s[i as int] == t[0]) by {
            let z: int = 0;
            assert(s[i + z] == t[z]);
        }
        match p {
            Piece::White(c) => {
                let next = if c == '\n' {
                    line + 1
                } else {
                    line
                };
                lemma_lex(s, e, next, rest);
                assert(tokens_from(s, i, line) == tokens_from(s, e, next));
            },
            Piece::Remark(body) => {
                assert forall|k: int| i + 1 <= k < e implies (#[trigger] s[k]) != '\n' by {
                    assert(s[i + (k - i)] == t[k - i]);
                    assert(body[k - i - 1] == s[k]);
                }
                lemma_line_end_at(s, i + 1, e);
                lemma_lex(s, e, line, rest);
            },
            Piece::Word(w) => {
                if w == seq!['('] || w == seq![')'] {
                    lemma_lex(s, e, line, rest);
                    let tok = if w == seq!['('] {
                        Tok::LParen
                    } else {
                        Tok::RParen
                    };
                    assert(seq!['('][0] != seq![')'][0]);
                    lemma_words_cons((tok, line), tokens_from(s, e, line));
                    assert(seq![(tok, line)][0] == (tok, line));
                    assert(toks_plain(seq![(tok, line)]));
                    assert(tokens_from(s, i, line) == seq![(tok, line)] + tokens_from(s, e, line));
                } else {
                    assert(is_plain(w));
                    assert forall|k: int| i + 1 <= k < e implies !white_space(#[trigger] s[k])
                        && s[k] != '(' && s[k] != ')' && s[k] != ';' by {
                        assert(s[i + (k - i)] == t[k - i]);
                        assert(!white_space(w[k - i]));
                    }
                    assert(!white_space(w[0]) && w[0] != '(' && w[0] != ')' && w[0] != ';');
                    lemma_symbol_end_at(s, i + 1, e);
                    lemma_lex(s, e, line, rest);
                    assert(s.subrange(i as int, e as int) =~= w) by {
                        assert forall|k: int| 0 <= k < w.len() implies s.subrange(
                            i as int,
                            e as int,
                        )[k] == w[k] by {
                            assert(s[i + k] == t[k]);
                        }
                    }
                    lemma_words_cons((Tok::Symbol(w), line), tokens_from(s, e, line));
                    assert(toks_plain(seq![(Tok::Symbol(w), line)]));
                    assert(white_space('\n'));
                    assert(s[i as int] != '\n');
                    assert(white_space(' ') && white_space('\t') && white_space('\r'));
                    assert(tokens_from(s, i, line) == seq![(Tok::Symbol(w), line)] + tokens_from(
                        s,
                        e,
                        line,
                    ));
                }
            },
        }
    }
}

/// A text that is laid out is read word by word: white space and remarks only
/// keep words apart. Lines are counted from 1 and end with line breaks.
pub proof fn words_are_read(ps: Seq<Piece>)
    requires
        laid_out(ps),
    ensures
        words(tokens_from(text_of(ps), 0, 1)) == words_of(ps),
        lines(tokens_from(text_of(ps), 0, 1)) == word_lines(ps, 1),
        toks_plain(tokens_from(text_of(ps), 0, 1)),
{
    let s = text_of(ps);
    assert(s.skip(0) =~= s);
    lemma_lex(s, 0, 1, ps);
}

proof fn lemma_cons_piece(p: Piece, rest: Seq<Piece>)
    requires
        laid_out(rest),
        piece_fits(p),
        rest.len() > 0 && p is Remark ==> rest[0] == Piece::White('\n'),
        rest.len() > 0 && is_name_piece(p) ==> !is_name_piece(rest[0]),
    ensures
        laid_out(seq![p] + rest),
        text_of(seq![p] + rest) == piece_text(p) + text_of(rest),
{
    let ps = seq![p] + rest;
    assert(ps.skip(1) =~= rest);
    assert forall|i: int| 0 <= i < ps.len() - 1 implies {
        &&& (#[trigger] ps[i]) is Remark ==> ps[i + 1] == Piece::White('\n')
        &&& is_name_piece(ps[i]) ==> !is_name_piece(ps[i + 1])
    } by {
        if i > 0 {
            assert(ps[i] == rest[i - 1]);
        }
    }
}

proof fn lemma_symbol_end_stop(s: Seq<char>, i: nat)
    requires
        i <= s.len(),
    ensures
        i <= symbol_end(s, i) <= s.len(),
        forall|k: int|
            i <= k < symbol_end(s, i) ==> !white_space(#[trigger] s[k]) && s[k] != '(' && s[k] != ')'
                && s[k] != ';',
        symbol_end(s, i) < s.len() ==> {
            let c = s[symbol_end(s, i) as int];
            white_space(c) || c == '(' || c == ')' || c == ';'
        },
    decreases s.len() - i,
{
    if i < s.len() && !crate::parser::ends_symbol(s[i as int]) {
        lemma_symbol_end_stop(s, i + 1);
    }
}

proof fn lemma_line_end_stop(s: Seq<char>, i: nat)
    requires
        i <= s.len(),
    ensures
        i <= line_end(s, i) <= s.len(),
        forall|k: int| i <= k < line_end(s, i) ==> (#[trigger] s[k]) != '\n',
        line_end(s, i) < s.len() ==> s[line_end(s, i) as int] == '\n',
    decreases s.len() - i,
{
    if i < s.len() && s[i as int] != '\n' {
        lemma_line_end_stop(s, i + 1);
    }
}

/// The piece that begins at `i`, and the position after it.
proof fn lemma_piece(s: Seq<char>, i: nat) -> (r: (Piece, nat))
    requires
        i < s.len(),
    ensures
        piece_fits(r.0),
        i < r.1 <= s.len(),
        piece_text(r.0) == s.subrange(i as int, r.1 as int),
        s[i as int] == '\n' ==> r.0 == Piece::White('\n'),
        r.0 is Remark && r.1 < s.len() ==> s[r.1 as int] == '\n',
        is_name_piece(r.0) && r.1 < s.len() ==> {
            let c = s[r.1 as int];
            white_space(c) || c == '(' || c == ')' || c == ';'
        },
{
    let c = s[i as int];
    if c == ';' {
        let e = line_end(s, i + 1);
        lemma_line_end_stop(s, i + 1);
        let body = s.subrange((i + 1) as int, e as int);
        assert forall|k: int| 0 <= k < body.len() implies body[k] != '\n' by {
            assert(body[k] == s[i + 1 + k]);
        }
        assert(piece_text(Piece::Remark(body)) =~= s.subrange(i as int, e as int));
        (Piece::Remark(body), e)
    } else if c == '(' || c == ')' {
        lemma_parens();
        assert(s.subrange(i as int, (i + 1) as int) =~= seq![c]);
        (Piece::Word(seq![c]), i + 1)
    } else if white_space(c) {
        assert(s.subrange(i as int, (i + 1) as int) =~= seq![c]);
        (Piece::White(c), i + 1)
    } else {
        let e = symbol_end(s, i + 1);
        lemma_symbol_end_stop(s, i + 1);
        let w = s.subrange(i as int, e as int);
        assert forall|k: int| 0 <= k < w.len() implies !white_space(#[trigger] w[k]) && w[k]
            != '(' && w[k] != ')' && w[k] != ';' by {
            assert(w[k] == s[i + k]);
        }
        assert(white_space('\n'));
        (Piece::Word(w), e)
    }
}

proof fn lemma_pieces(s: Seq<char>, i: nat) -> (ps: Seq<Piece>)
    requires
        i <= s.len(),
    ensures
        laid_out(ps),
        text_of(ps) == s.skip(i as int),
        ps.len() > 0 && i < s.len() && s[i as int] == '\n' ==> ps[0] == Piece::White('\n'),
        ps.len() == 0 ==> i == s.len(),
    decreases s.len() - i,
{
    if i == s.len() {
        let ps = Seq::<Piece>::empty();
        assert(text_of(ps) =~= s.skip(i as int));
        ps
    } else {
        let (p, e) = lemma_piece(s, i);
        let rest = lemma_pieces(s, e);
        lemma_first_char(rest);
        if e < s.len() {
            assert(s.skip(e as int)[0] == s[e as int]);
        } else {
            assert(s.skip(e as int).len() == 0);
        }
        if is_name_piece(p) && rest.len() > 0 && is_name_piece(rest[0]) {
            let w = rest[0]->Word_0;
            assert(w[0] == s[e as int]);
            assert(!white_space(w[0]));
            assert(false);
        }
        lemma_cons_piece(p, rest);
        let ps = seq![p] + rest;
        assert(text_of(ps) =~= s.skip(i as int));
        ps
    }
}

/// Every text is made of words, white space and remarks.
pub proof fn every_text_is_laid_out(s: Seq<char>)
    ensures
        exists|ps: Seq<Piece>| #[trigger] laid_out(ps) && text_of(ps) == s,
{
    let ps = lemma_pieces(s, 0);
    assert(s.skip(0) =~= s);
    assert(laid_out(ps) && text_of(ps) == s);
}

// ---------------------------------------------------------------------------
// Lists.
// ---------------------------------------------------------------------------
/// Whether the words from `pos` on are these.
pub open spec fn stand_at(ws: Seq<Seq<char>>, pos: nat, part: Seq<Seq<char>>) -> bool {
    pos + part.len() <= ws.len() && ws.subrange(pos as int, (pos + part.len()) as int) == part
}

pub(crate) proof fn lemma_stand_split(ws: Seq<Seq<char>>, pos: nat, a: Seq<Seq<char>>, b: Seq<Seq<char>>)
    ensures
        stand_at(ws, pos, a + b) <==> stand_at(ws, pos, a) && stand_at(ws, pos + a.len(), b),
{
    let m = pos + a.len();
    let e = m + b.len();
    if e <= ws.len() {
        let whole = ws.subrange(pos as int, e as int);
        assert(whole =~= ws.subrange(pos as int, m as int) + ws.subrange(m as int, e as int));
        if stand_at(ws, pos, a + b) {
            assert(ws.subrange(pos as int, m as int) =~= (a + b).subrange(0, a.len() as int));
            assert((a + b).subrange(0, a.len() as int) =~= a);
            assert(ws.subrange(m as int, e as int) =~= (a + b).subrange(
                a.len() as int,
                (a + b).len() as int,
            ));
            assert((a + b).subrange(a.len() as int, (a + b).len() as int) =~= b);
        }
    }
}

pub(crate) proof fn lemma_stand_one(ws: Seq<Seq<char>>, pos: nat, w: Seq<char>)
    ensures
        stand_at(ws, pos, seq![w]) <==> pos < ws.len() && ws[pos as int] == w,
{
    if pos < ws.len() {
        assert(ws.subrange(pos as int, (pos + 1) as int)[0] == ws[pos as int]);
        if ws[pos as int] == w {
            assert(ws.subrange(pos as int, (pos + 1) as int) =~= seq![w]);
        }
        assert(seq![w][0] == w);
    }
}

/// Parentheses are no names.
pub(crate) proof fn lemma_parens()
    ensures
        !is_plain(seq!['(']),
        !is_plain(seq![')']),
        seq!['('] != seq![')'],
{
    assert(seq!['('][0] == '(');
    assert(seq![')'][0] == ')');
}

/// A name or list that is spelled in the tokens is read there.
#[verifier::rlimit(30)]
pub(crate) proof fn lemma_expr_spelled(ts: Seq<(Tok, nat)>, pos: nat, x: Nest) -> (e: Expr)
    requires
        toks_plain(ts),
        well_named(x),
        stand_at(words(ts), pos, spelled(x)),
    ensures
        spelled(x).len() > 0,
        expr_at(ts, pos) == Ok::<(Expr, nat), ErrorView>((e, pos + spelled(x).len())),
        nest(e) == x,
    decreases x, 0nat,
{
    let ws = words(ts);
    lemma_parens();
    match x {
        Nest::Name(n) => {
            lemma_stand_one(ws, pos, n);
            assert(ws[pos as int] == word(ts[pos as int].0));
            Expr::Atom(ts[pos as int].1, n)
        },
        Nest::List(items) => {
            let open = seq![seq!['(']];
            let body = spelled_from(items, 0);
            let close = seq![seq![')']];
            lemma_stand_split(ws, pos, open + body, close);
            lemma_stand_split(ws, pos, open, body);
            lemma_stand_one(ws, pos, seq!['(']);
            assert(ws[pos as int] == word(ts[pos as int].0));
            assert(open.len() == 1);
            let line = ts[pos as int].1;
            assert(ts[pos as int].0 == Tok::LParen) by {
                if let Tok::Symbol(n) = ts[pos as int].0 {
                    assert(is_plain(n));
                }
            }
            assert forall|i: int| 0 <= i < items.len() implies well_named(#[trigger] items[i]) by {
                assert(well_named(x->List_0[i]));
            }
            let es = lemma_items_spelled(ts, pos + 1, line, items, 0);
            assert((open + body).len() == 1 + body.len());
            lemma_nest_list(line, es);
            assert(nests(es) =~= items);
            Expr::List(line, es)
        },
    }
}

proof fn lemma_items_spelled(
    ts: Seq<(Tok, nat)>,
    pos: nat,
    line: nat,
    items: Seq<Nest>,
    k: nat,
) -> (es: Seq<Expr>)
    requires
        toks_plain(ts),
        k <= items.len(),
        forall|i: int| 0 <= i < items.len() ==> well_named(#[trigger] items[i]),
        stand_at(words(ts), pos, spelled_from(items, k)),
        stand_at(words(ts), pos + spelled_from(items, k).len(), seq![seq![')']]),
    ensures
        items_at(ts, pos, line) == Ok::<(Seq<Expr>, nat), ErrorView>(
            (es, pos + spelled_from(items, k).len() + 1),
        ),
        es.len() == items.len() - k,
        forall|j: int| 0 <= j < es.len() ==> nest(#[trigger] es[j]) == items[k + j],
    decreases items, items.len() - k,
{
    let ws = words(ts);
    lemma_parens();
    if k == items.len() {
        lemma_stand_one(ws, pos, seq![')']);
        assert(ws[pos as int] == word(ts[pos as int].0));
        assert(ts[pos as int].0 == Tok::RParen) by {
            if let Tok::Symbol(n) = ts[pos as int].0 {
                assert(is_plain(n));
            }
        }
        Seq::empty()
    } else {
        let x = items[k as int];
        lemma_stand_split(ws, pos, spelled(x), spelled_from(items, k + 1));
        let e = lemma_expr_spelled(ts, pos, x);
        let next = pos + spelled(x).len();
        let rest = lemma_items_spelled(ts, next, line, items, k + 1);
        assert(ts[pos as int].0 != Tok::RParen);
        let es = seq![e] + rest;
        assert forall|j: int| 0 <= j < es.len() implies nest(#[trigger] es[j]) == items[k + j] by {
            if j > 0 {
                assert(es[j] == rest[j - 1]);
            }
        }
        es
    }
}

/// What is read from the tokens is spelled there.
pub(crate) proof fn lemma_expr_read(ts: Seq<(Tok, nat)>, pos: nat)
    requires
        toks_plain(ts),
    ensures
        expr_at(ts, pos) matches Ok((e, end)) ==> {
            &&& well_named(nest(e))
            &&& stand_at(words(ts), pos, spelled(nest(e)))
            &&& end == pos + spelled(nest(e)).len()
            &&& pos < end <= ts.len()
        },
    decreases ts.len() - pos, 0nat,
{
    let ws = words(ts);
    if pos < ts.len() {
        assert(ws[pos as int] == word(ts[pos as int].0));
        match ts[pos as int].0 {
            Tok::LParen => {
                let line = ts[pos as int].1;
                lemma_items_read(ts, pos + 1, line);
                if let Ok((es, end)) = items_at(ts, pos + 1, line) {
                    let items = nests(es);
                    let open = seq![seq!['(']];
                    let body = spelled_from(items, 0);
                    let close = seq![seq![')']];
                    lemma_nest_list(line, es);
                    lemma_stand_one(ws, pos, seq!['(']);
                    lemma_stand_split(ws, pos, open, body);
                    lemma_stand_split(ws, pos, open + body, close);
                    assert((open + body).len() == 1 + body.len());
                }
            },
            Tok::RParen => {},
            Tok::Symbol(n) => {
                lemma_stand_one(ws, pos, n);
            },
        }
    }
}

proof fn lemma_items_read(ts: Seq<(Tok, nat)>, pos: nat, line: nat)
    requires
        toks_plain(ts),
    ensures
        items_at(ts, pos, line) matches Ok((es, end)) ==> {
            let part = spelled_from(nests(es), 0);
            &&& forall|i: int| 0 <= i < es.len() ==> well_named(nest(#[trigger] es[i]))
            &&& stand_at(words(ts), pos, part)
            &&& stand_at(words(ts), pos + part.len(), seq![seq![')']])
            &&& end == pos + part.len() + 1
            &&& pos < end <= ts.len()
        },
    decreases ts.len() - pos, 1nat,
{
    let ws = words(ts);
    if pos < ts.len() {
        assert(ws[pos as int] == word(ts[pos as int].0));
        if ts[pos as int].0 == Tok::RParen {
            lemma_stand_one(ws, pos, seq![')']);
            assert(ws.subrange(pos as int, pos as int) =~= Seq::empty());
        } else {
            lemma_expr_read(ts, pos);
            if let Ok((e, next)) = expr_at(ts, pos) {
                lemma_items_read(ts, next, line);
                if let Ok((rest, end)) = items_at(ts, next, line) {
                    lemma_spelled_cons(e, rest);
                    lemma_stand_split(ws, pos, spelled(nest(e)), spelled_from(nests(rest), 0));
                    let es = seq![e] + rest;
                    assert forall|i: int| 0 <= i < es.len() implies well_named(
                        nest(#[trigger] es[i]),
                    ) by {
                        if i > 0 {
                            assert(es[i] == rest[i - 1]);
                        }
                    }
                }
            }
        }
    }
}

proof fn lemma_spelled_shift(a: Seq<Nest>, b: Seq<Nest>, k: nat)
    requires
        a.len() == b.len() + 1,
        forall|i: int| 0 <= i < b.len() ==> a[i + 1] == #[trigger] b[i],
        k <= b.len(),
    ensures
        spelled_from(a, k + 1) == spelled_from(b, k),
    decreases b.len() - k,
{
    if k < b.len() {
        lemma_spelled_shift(a, b, k + 1);
        assert(a[k as int + 1] == b[k as int]);
    }
}

proof fn lemma_spelled_cons(e: Expr, rest: Seq<Expr>)
    ensures
        spelled_from(nests(seq![e] + rest), 0) == spelled(nest(e)) + spelled_from(nests(rest), 0),
{
    let a = nests(seq![e] + rest);
    let b = nests(rest);
    assert forall|i: int| 0 <= i < b.len() implies a[i + 1] == #[trigger] b[i] by {
        assert((seq![e] + rest)[i + 1] == rest[i]);
    }
    lemma_spelled_shift(a, b, 0);
    assert(a[0] == nest(e));
}

pub(crate) proof fn lemma_exprs_spelled(ts: Seq<(Tok, nat)>, pos: nat, xs: Seq<Nest>, k: nat) -> (es: Seq<
    Expr,
>)
    requires
        toks_plain(ts),
        k <= xs.len(),
        forall|i: int| 0 <= i < xs.len() ==> well_named(#[trigger] xs[i]),
        stand_at(words(ts), pos, spelled_from(xs, k)),
        pos + spelled_from(xs, k).len() == ts.len(),
    ensures
        exprs_at(ts, pos) == Ok::<Seq<Expr>, ErrorView>(es),
        es.len() == xs.len() - k,
        forall|j: int| 0 <= j < es.len() ==> nest(#[trigger] es[j]) == xs[k + j],
    decreases xs.len() - k,
{
    if k == xs.len() {
        Seq::empty()
    } else {
        let x = xs[k as int];
        lemma_stand_split(words(ts), pos, spelled(x), spelled_from(xs, k + 1));
        let e = lemma_expr_spelled(ts, pos, x);
        let rest = lemma_exprs_spelled(ts, pos + spelled(x).len(), xs, k + 1);
        let es = seq![e] + rest;
        assert forall|j: int| 0 <= j < es.len() implies nest(#[trigger] es[j]) == xs[k + j] by {
            if j > 0 {
                assert(es[j] == rest[j - 1]);
            }
        }
        es
    }
}

proof fn lemma_exprs_read(ts: Seq<(Tok, nat)>, pos: nat)
    requires
        toks_plain(ts),
        pos <= ts.len(),
    ensures
        exprs_at(ts, pos) matches Ok(es) ==> {
            let part = spelled_from(nests(es), 0);
            &&& forall|i: int| 0 <= i < es.len() ==> well_named(nest(#[trigger] es[i]))
            &&& stand_at(words(ts), pos, part)
            &&& pos + part.len() == ts.len()
        },
    decreases ts.len() - pos,
{
    let ws = words(ts);
    if pos < ts.len() {
        lemma_expr_read(ts, pos);
        if let Ok((e, next)) = expr_at(ts, pos) {
            lemma_exprs_read(ts, next);
            if let Ok(rest) = exprs_at(ts, next) {
                lemma_spelled_cons(e, rest);
                lemma_stand_split(ws, pos, spelled(nest(e)), spelled_from(nests(rest), 0));
                let es = seq![e] + rest;
                assert forall|i: int| 0 <= i < es.len() implies well_named(
                    nest(#[trigger] es[i]),
                ) by {
                    if i > 0 {
                        assert(es[i] == rest[i - 1]);
                    }
                }
            }
        }
    } else {
        assert(ws.subrange(pos as int, pos as int) =~= Seq::empty());
    }
}

/// Whether the text is made of these names and lists, with any white space and
/// remarks between the words.
pub open spec fn says(text: Seq<char>, xs: Seq<Nest>) -> bool {
    &&& forall|i: int| 0 <= i < xs.len() ==> well_named(#[trigger] xs[i])
    &&& exists|ps: Seq<Piece>| #[trigger]
        laid_out(ps) && text_of(ps) == text && words_of(ps) == spelled_from(xs, 0)
}

/// A text that is made of names and lists is read as those.
pub proof fn lists_are_read(text: Seq<char>, xs: Seq<Nest>)
    requires
        says(text, xs),
    ensures
        exprs_at(tokens_from(text, 0, 1), 0) matches Ok(es) && nests(es) == xs,
{
    let ps = choose|ps: Seq<Piece>| #[trigger]
        laid_out(ps) && text_of(ps) == text && words_of(ps) == spelled_from(xs, 0);
    words_are_read(ps);
    let ts = tokens_from(text, 0, 1);
    let all = spelled_from(xs, 0);
    assert(words(ts).len() == ts.len());
    assert(words(ts).subrange(0, all.len() as int) =~= all);
    let es = lemma_exprs_spelled(ts, 0, xs, 0);
    assert(nests(es) =~= xs);
}

/// Whatever text is read as names and lists is made of those.
pub proof fn what_is_read_was_said(text: Seq<char>)
    ensures
        exprs_at(tokens_from(text, 0, 1), 0) matches Ok(es) ==> says(text, nests(es)),
{
    every_text_is_laid_out(text);
    let ps = choose|ps: Seq<Piece>| #[trigger] laid_out(ps) && text_of(ps) == text;
    words_are_read(ps);
    let ts = tokens_from(text, 0, 1);
    lemma_exprs_read(ts, 0);
    if let Ok(es) = exprs_at(ts, 0) {
        let part = spelled_from(nests(es), 0);
        assert(words(ts).subrange(0, part.len() as int) =~= words(ts));
        assert(laid_out(ps) && text_of(ps) == text && words_of(ps) == spelled_from(nests(es), 0));
    }
}

} // verus!
