//! Reads problems in a format of parenthesised lists:
//!
//! ```text
//! ; a comment runs to the end of the line
//! (clause (not (man X)) (mortal X))
//! (clause (man socrates))
//! (clause (not (mortal socrates)))
//! ```
//!
//! A literal is `(pred arg...)` or `(not (pred arg...))`; a predicate without
//! arguments may stand without parentheses. A term is a name or `(f arg...)`.
//! Names that start with an upper-case letter or `_` are variables, and belong
//! to their clause. `(clause)` is the empty clause.
use crate::clause::{lits, lits_valid, views, weights, Lit, Literal};
use crate::forest::{
    arities, lemma_contains_prefix, lemma_many_vars, lemma_numbered_prefix, lemma_plant_cons,
    lemma_prefix_trans, lemma_with_tree, numbered, plant, plant_list, with_tree, Forest,
};
use crate::inference::plant_lits;
use crate::term::{SymbolId, SymbolTable, TermArena, TermId, VarId};
use crate::text::{
    chars_of, decimal, first_char, is_word, push_decimal, text_between, upper_case, white_space,
};
use crate::tree::{sizes, Tree};
use vstd::prelude::*;

verus! {

/// A problem could not be read; `line` counts from 1.
#[derive(Debug, Clone, PartialEq, Eq)]
pub struct ParseError {
    pub line: usize,
    pub message: String,
}

/// A reading error with its contents as mathematical values.
#[verifier::ext_equal]
pub struct ErrorView {
    pub line: nat,
    pub message: Seq<char>,
}

impl View for ParseError {
    type V = ErrorView;

    open spec fn view(&self) -> ErrorView {
        ErrorView { line: self.line as nat, message: self.message@ }
    }
}

/// The text of an error: its line and its message.
pub open spec fn parse_error_text(e: ErrorView) -> Seq<char> {
    "baris "@ + decimal(e.line) + ": "@ + e.message
}

impl ParseError {
    pub(crate) fn new(line: usize, message: &str) -> (r: Self)
        ensures
            r@ == (ErrorView { line: line as nat, message: message@ }),
    {
        ParseError { line, message: message.to_owned() }
    }

    /// The error as text.
    pub fn describe(&self) -> (r: String)
        ensures
            r@ == parse_error_text(self@),
    {
        let mut out = String::new();
        out.append("baris ");
        push_decimal(&mut out, self.line as u64);
        out.append(": ");
        out.append(self.message.as_str());
        assert(out@ =~= parse_error_text(self@));
        out
    }
}

/// An error at a line.
pub open spec fn error_at(line: nat, message: Seq<char>) -> ErrorView {
    ErrorView { line, message }
}

// ---------------------------------------------------------------------------
// Tokens.
// ---------------------------------------------------------------------------
#[derive(Debug)]
enum Token {
    LParen,
    RParen,
    Symbol(String),
}

/// A token of the format.
#[verifier::ext_equal]
pub enum Tok {
    LParen,
    RParen,
    Symbol(Seq<char>),
}

spec fn tok(t: Token) -> Tok {
    match t {
        Token::LParen => Tok::LParen,
        Token::RParen => Tok::RParen,
        Token::Symbol(s) => Tok::Symbol(s@),
    }
}

spec fn toks(ts: Seq<(Token, usize)>) -> Seq<(Tok, nat)> {
    Seq::new(ts.len(), |i: int| (tok(ts[i].0), ts[i].1 as nat))
}

/// Whether a character ends a name.
pub open spec fn ends_symbol(c: char) -> bool {
    white_space(c) || c == '(' || c == ')' || c == ';'
}

/// The position of the next line break from `i` on, or the end.
pub open spec fn line_end(s: Seq<char>, i: nat) -> nat
    decreases s.len() - i,
{
    if i >= s.len() || s[i as int] == '\n' {
        i
    } else {
        line_end(s, i + 1)
    }
}

/// The position of the next character from `i` on that ends a name, or the
/// end.
pub open spec fn symbol_end(s: Seq<char>, i: nat) -> nat
    decreases s.len() - i,
{
    if i >= s.len() || ends_symbol(s[i as int]) {
        i
    } else {
        symbol_end(s, i + 1)
    }
}

/// The position where a scan ends is not before its start.
pub proof fn lemma_line_end(s: Seq<char>, i: nat)
    requires
        i <= s.len(),
    ensures
        i <= line_end(s, i) <= s.len(),
    decreases s.len() - i,
{
    if i < s.len() && s[i as int] != '\n' {
        lemma_line_end(s, i + 1);
    }
}

/// The position where a scan ends is not before its start.
pub proof fn lemma_symbol_end(s: Seq<char>, i: nat)
    requires
        i <= s.len(),
    ensures
        i <= symbol_end(s, i) <= s.len(),
    decreases s.len() - i,
{
    if i < s.len() && !ends_symbol(s[i as int]) {
        lemma_symbol_end(s, i + 1);
    }
}

/// The tokens of the text from position `i` on, each with its line, where the
/// text at `i` is in the given line. White space and comments make no token;
/// parentheses are tokens of their own, and everything up to the next
/// character that ends a name is a name.
pub open spec fn tokens_from(s: Seq<char>, i: nat, line: nat) -> Seq<(Tok, nat)>
    decreases s.len() - i,
{
    if i >= s.len() {
        Seq::empty()
    } else {
        let c = s[i as int];
        if c == '\n' {
            tokens_from(s, i + 1, line + 1)
        } else if c == ';' {
            proof {
                lemma_line_end(s, i + 1);
            }
            tokens_from(s, line_end(s, i + 1), line)
        } else if c == '(' {
            seq![(Tok::LParen, line)] + tokens_from(s, i + 1, line)
        } else if c == ')' {
            seq![(Tok::RParen, line)] + tokens_from(s, i + 1, line)
        } else if c == ' ' || c == '\t' || c == '\r' || white_space(c) {
            tokens_from(s, i + 1, line)
        } else {
            let end = symbol_end(s, i + 1);
            proof {
                lemma_symbol_end(s, i + 1);
            }
            seq![(Tok::Symbol(s.subrange(i as int, end as int)), line)] + tokens_from(s, end, line)
        }
    }
}

/// There are at most as many tokens as characters, and lines do not run ahead
/// of the text.
proof fn lemma_tokens(s: Seq<char>, i: nat, line: nat)
    requires
        i <= s.len(),
    ensures
        tokens_from(s, i, line).len() <= s.len() - i,
    decreases s.len() - i,
{
    if i < s.len() {
        let c = s[i as int];
        if c == '\n' {
            lemma_tokens(s, i + 1, line + 1);
        } else if c == ';' {
            lemma_line_end(s, i + 1);
            lemma_tokens(s, line_end(s, i + 1), line);
        } else if c == '(' || c == ')' || c == ' ' || c == '\t' || c == '\r' || white_space(c) {
            lemma_tokens(s, i + 1, line);
        } else {
            lemma_symbol_end(s, i + 1);
            lemma_tokens(s, symbol_end(s, i + 1), line);
        }
    }
}

/// Splits the text into tokens.
fn tokenize(chars: &Vec<char>) -> (r: Vec<(Token, usize)>)
    requires
        chars@.len() < usize::MAX,
    ensures
        toks(r@) == tokens_from(chars@, 0, 1),
{
    let ghost s = chars@;
    let mut tokens: Vec<(Token, usize)> = Vec::new();
    let mut line: usize = 1;
    let mut i: usize = 0;
    assert(toks(tokens@) + tokens_from(s, 0, 1) =~= tokens_from(s, 0, 1));
    while i < chars.len()
        invariant
            s == chars@,
            s.len() < usize::MAX,
            i <= s.len(),
            1 <= line <= i + 1,
            toks(tokens@) + tokens_from(s, i as nat, line as nat) == tokens_from(s, 0, 1),
        decreases s.len() - i,
    {
        let c: char = chars[i];
        let ghost before = toks(tokens@);
        let ghost rest = tokens_from(s, i as nat, line as nat);
        if c == '\n' {
            i += 1;
            line += 1;
        } else if c == ';' {
            let ghost start = i;
            i += 1;
            while i < chars.len() && chars[i] != '\n'
                invariant
                    s == chars@,
                    start < i <= s.len(),
                    line_end(s, i as nat) == line_end(s, (start + 1) as nat),
                decreases s.len() - i,
            {
                i += 1;
            }
        } else if c == '(' || c == ')' {
            let t: Token = if c == '(' {
                Token::LParen
            } else {
                Token::RParen
            };
            let ghost entry = (tok(t), line as nat);
            tokens.push((t, line));
            i += 1;
            proof {
                let after = tokens_from(s, i as nat, line as nat);
                assert(toks(tokens@) =~= before.push(entry));
                assert(toks(tokens@) + after =~= before + (seq![entry] + after));
            }
        } else if c == ' ' || c == '\t' || c == '\r' || c.is_whitespace() {
            i += 1;
        } else {
            let start: usize = i;
            i += 1;
            while i < chars.len() && !(chars[i].is_whitespace() || chars[i] == '(' || chars[i]
                == ')' || chars[i] == ';')
                invariant
                    s == chars@,
                    start < i <= s.len(),
                    symbol_end(s, i as nat) == symbol_end(s, (start + 1) as nat),
                decreases s.len() - i,
            {
                i += 1;
            }
            let name: String = text_between(chars, start, i);
            let ghost entry = (Tok::Symbol(name@), line as nat);
            tokens.push((Token::Symbol(name), line));
            proof {
                let after = tokens_from(s, i as nat, line as nat);
                assert(toks(tokens@) =~= before.push(entry));
                assert(toks(tokens@) + after =~= before + (seq![entry] + after));
            }
        }
    }
    assert(toks(tokens@) + tokens_from(s, i as nat, line as nat) =~= toks(tokens@));
    tokens
}

// ---------------------------------------------------------------------------
// Nested lists.
// ---------------------------------------------------------------------------
/// A name or a list of expressions, with the line it starts in.
pub enum Expr {
    Atom(nat, Seq<char>),
    List(nat, Seq<Expr>),
}

impl Expr {
    /// The line in which the expression starts.
    pub open spec fn line(self) -> nat {
        match self {
            Expr::Atom(line, _) => line,
            Expr::List(line, _) => line,
        }
    }

    /// Number of names and lists.
    pub open spec fn count(self) -> nat
        decreases self, 0nat,
    {
        match self {
            Expr::Atom(_, _) => 1,
            Expr::List(_, items) => 1 + counts(items, items.len()),
        }
    }
}

/// Number of names and lists in the first `k` expressions.
pub open spec fn counts(items: Seq<Expr>, k: nat) -> nat
    decreases items, k,
{
    if 0 < k <= items.len() {
        counts(items, (k - 1) as nat) + items[k - 1].count()
    } else {
        0
    }
}

/// The expression at position `pos` of the tokens and the position after it.
pub open spec fn expr_at(ts: Seq<(Tok, nat)>, pos: nat) -> Result<(Expr, nat), ErrorView>
    decreases ts.len() - pos, 0nat,
{
    if pos >= ts.len() {
        Err(error_at(0, "input kosong atau EOF tak terduga"@))
    } else {
        let line = ts[pos as int].1;
        match ts[pos as int].0 {
            Tok::LParen => match items_at(ts, pos + 1, line) {
                Ok((items, end)) => Ok((Expr::List(line, items), end)),
                Err(e) => Err(e),
            },
            Tok::RParen => Err(error_at(line, "')' tak terduga tanpa '(' pembuka"@)),
            Tok::Symbol(name) => Ok((Expr::Atom(line, name), pos + 1)),
        }
    }
}

/// The expressions from position `pos` up to the closing parenthesis of the
/// list that was opened in line `line`, and the position after that.
pub open spec fn items_at(ts: Seq<(Tok, nat)>, pos: nat, line: nat) -> Result<
    (Seq<Expr>, nat),
    ErrorView,
>
    decreases ts.len() - pos, 1nat,
{
    if pos >= ts.len() {
        Err(error_at(line, "tanda kurung tidak lengkap: EOF sebelum ')' penutup"@))
    } else if ts[pos as int].0 == Tok::RParen {
        Ok((Seq::empty(), pos + 1))
    } else {
        match expr_at(ts, pos) {
            Err(e) => Err(e),
            Ok((first, next)) => if next <= pos || next > ts.len() {
                Ok((Seq::empty(), next))
            } else {
                match items_at(ts, next, line) {
                    Err(e) => Err(e),
                    Ok((rest, end)) => Ok((seq![first] + rest, end)),
                }
            },
        }
    }
}

/// All expressions from position `pos` on.
pub open spec fn exprs_at(ts: Seq<(Tok, nat)>, pos: nat) -> Result<Seq<Expr>, ErrorView>
    decreases ts.len() - pos,
{
    if pos >= ts.len() {
        Ok(Seq::empty())
    } else {
        match expr_at(ts, pos) {
            Err(e) => Err(e),
            Ok((first, next)) => if next <= pos || next > ts.len() {
                Ok(Seq::empty())
            } else {
                match exprs_at(ts, next) {
                    Err(e) => Err(e),
                    Ok(rest) => Ok(seq![first] + rest),
                }
            },
        }
    }
}

proof fn lemma_counts_concat(a: Seq<Expr>, b: Seq<Expr>, k: nat)
    requires
        k <= b.len(),
    ensures
        counts(a + b, a.len() + k) == counts(a, a.len()) + counts(b, k),
    decreases k,
{
    let c = a + b;
    if k > 0 {
        lemma_counts_concat(a, b, (k - 1) as nat);
        assert(c[a.len() + k - 1] == b[k - 1]);
    } else {
        lemma_counts_prefix(a, c, a.len());
    }
}

proof fn lemma_counts_prefix(a: Seq<Expr>, c: Seq<Expr>, k: nat)
    requires
        k <= a.len() <= c.len(),
        forall|i: int| 0 <= i < a.len() ==> a[i] == c[i],
    ensures
        counts(a, k) == counts(c, k),
    decreases k,
{
    if k > 0 {
        lemma_counts_prefix(a, c, (k - 1) as nat);
    }
}

proof fn lemma_counts_monotonic(items: Seq<Expr>, j: nat, k: nat)
    requires
        j <= k <= items.len(),
    ensures
        counts(items, j) <= counts(items, k),
    decreases k,
{
    if j < k {
        lemma_counts_monotonic(items, j, (k - 1) as nat);
    }
}

/// Reading moves on, by at least as many tokens as the expression has names
/// and lists.
proof fn lemma_expr_at(ts: Seq<(Tok, nat)>, pos: nat)
    ensures
        expr_at(ts, pos) matches Ok((x, end)) ==> pos < end <= ts.len() && x.count() <= end - pos,
    decreases ts.len() - pos, 0nat,
{
    if pos < ts.len() && ts[pos as int].0 == Tok::LParen {
        lemma_items_at(ts, pos + 1, ts[pos as int].1);
    }
}

proof fn lemma_items_at(ts: Seq<(Tok, nat)>, pos: nat, line: nat)
    ensures
        items_at(ts, pos, line) matches Ok((xs, end)) ==> pos < end <= ts.len() && counts(
            xs,
            xs.len(),
        ) <= end - pos,
    decreases ts.len() - pos, 1nat,
{
    if pos < ts.len() && ts[pos as int].0 != Tok::RParen {
        lemma_expr_at(ts, pos);
        if let Ok((first, next)) = expr_at(ts, pos) {
            lemma_items_at(ts, next, line);
            if let Ok((rest, end)) = items_at(ts, next, line) {
                lemma_counts_concat(seq![first], rest, rest.len());
                assert(counts(seq![first], 1) == counts(seq![first], 0) + first.count());
            }
        }
    }
}

proof fn lemma_exprs_at(ts: Seq<(Tok, nat)>, pos: nat)
    requires
        pos <= ts.len(),
    ensures
        exprs_at(ts, pos) matches Ok(xs) ==> counts(xs, xs.len()) <= ts.len() - pos,
    decreases ts.len() - pos,
{
    if pos < ts.len() {
        lemma_expr_at(ts, pos);
        if let Ok((first, next)) = expr_at(ts, pos) {
            lemma_exprs_at(ts, next);
            if let Ok(rest) = exprs_at(ts, next) {
                lemma_counts_concat(seq![first], rest, rest.len());
                assert(counts(seq![first], 1) == counts(seq![first], 0) + first.count());
            }
        }
    }
}

#[derive(Debug)]
struct Sexpr {
    line: usize,
    kind: SexprKind,
}

#[derive(Debug)]
enum SexprKind {
    Atom(String),
    List(Vec<Sexpr>),
}

spec fn expr(e: Sexpr) -> Expr
    decreases e,
{
    match e.kind {
        SexprKind::Atom(name) => Expr::Atom(e.line as nat, name@),
        SexprKind::List(items) => Expr::List(
            e.line as nat,
            Seq::new(
                items@.len(),
                |i: int|
                    if 0 <= i < items@.len() {
                        expr(items@[i])
                    } else {
                        Expr::Atom(0, Seq::empty())
                    },
            ),
        ),
    }
}

spec fn exprs(es: Seq<Sexpr>) -> Seq<Expr> {
    Seq::new(es.len(), |i: int| expr(es[i]))
}

proof fn lemma_expr_list(e: Sexpr)
    ensures
        e.kind matches SexprKind::List(items) ==> expr(e) == Expr::List(
            e.line as nat,
            exprs(items@),
        ),
{
    if let SexprKind::List(items) = e.kind {
        assert(expr(e)->List_1 =~= exprs(items@));
    }
}

/// Reads one expression.
fn parse_expr(tokens: &Vec<(Token, usize)>, pos: usize) -> (r: Result<(Sexpr, usize), ParseError>)
    requires
        pos <= tokens@.len(),
    ensures
        match r {
            Ok((e, end)) => expr_at(toks(tokens@), pos as nat) == Ok::<(Expr, nat), ErrorView>(
                (expr(e), end as nat),
            ) && end <= tokens@.len(),
            Err(e) => expr_at(toks(tokens@), pos as nat) == Err::<(Expr, nat), ErrorView>(e@),
        },
    decreases tokens@.len() - pos,
{
    let ghost ts = toks(tokens@);
    if pos >= tokens.len() {
        return Err(ParseError::new(0, "input kosong atau EOF tak terduga"));
    }
    let line: usize = tokens[pos].1;
    assert(ts[pos as int] == (tok(tokens@[pos as int].0), line as nat));
    match &tokens[pos].0 {
        Token::LParen => {
            let ghost goal = items_at(ts, (pos + 1) as nat, line as nat);
            let mut items: Vec<Sexpr> = Vec::new();
            let mut at: usize = pos + 1;
            proof {
                if let Ok((xs, _)) = goal {
                    assert(exprs(items@) + xs =~= xs);
                }
            }
            while at < tokens.len()
                invariant
                    ts == toks(tokens@),
                    pos < at <= tokens@.len(),
                    pos < tokens@.len(),
                    line == tokens@[pos as int].1,
                    ts[pos as int] == (Tok::LParen, line as nat),
                    goal == items_at(ts, (pos + 1) as nat, line as nat),
                    match items_at(ts, at as nat, line as nat) {
                        Ok((rest, end)) => goal == Ok::<(Seq<Expr>, nat), ErrorView>(
                            (exprs(items@) + rest, end),
                        ),
                        Err(e) => goal == Err::<(Seq<Expr>, nat), ErrorView>(e),
                    },
                decreases tokens@.len() - at,
            {
                assert(ts[at as int] == (tok(tokens@[at as int].0), tokens@[at as int].1 as nat));
                let ghost before = items@;
                let ghost from = at as nat;
                match &tokens[at].0 {
                    Token::RParen => {
                        let e = Sexpr { line, kind: SexprKind::List(items) };
                        proof {
                            lemma_expr_list(e);
                            assert(exprs(items@) + Seq::empty() =~= exprs(items@));
                        }
                        return Ok((e, at + 1));
                    },
                    _ => {
                        proof {
                            lemma_expr_at(ts, at as nat);
                        }
                        match parse_expr(tokens, at) {
                            Err(e) => {
                                return Err(e);
                            },
                            Ok((x, next)) => {
                                let ghost first = expr(x);
                                items.push(x);
                                at = next;
                                proof {
                                    assert(exprs(items@) =~= exprs(before).push(first));
                                    if let Ok((rest, end)) = items_at(ts, at as nat, line as nat) {
                                        assert(exprs(before) + (seq![first] + rest) =~= exprs(
                                            items@,
                                        ) + rest);
                                    }
                                }
                            },
                        }
                    },
                }
            }
            Err(
                ParseError::new(line, "tanda kurung tidak lengkap: EOF sebelum ')' penutup"),
            )
        },
        Token::RParen => Err(ParseError::new(line, "')' tak terduga tanpa '(' pembuka")),
        Token::Symbol(name) => {
            let e = Sexpr { line, kind: SexprKind::Atom(name.clone()) };
            Ok((e, pos + 1))
        },
    }
}

/// Reads all expressions.
fn parse_all(tokens: &Vec<(Token, usize)>) -> (r: Result<Vec<Sexpr>, ParseError>)
    ensures
        match r {
            Ok(es) => exprs_at(toks(tokens@), 0) == Ok::<Seq<Expr>, ErrorView>(exprs(es@)),
            Err(e) => exprs_at(toks(tokens@), 0) == Err::<Seq<Expr>, ErrorView>(e@),
        },
{
    let ghost ts = toks(tokens@);
    let ghost goal = exprs_at(ts, 0);
    let mut es: Vec<Sexpr> = Vec::new();
    let mut at: usize = 0;
    proof {
        if let Ok(xs) = goal {
            assert(exprs(es@) + xs =~= xs);
        }
    }
    while at < tokens.len()
        invariant
            ts == toks(tokens@),
            at <= tokens@.len(),
            goal == exprs_at(ts, 0),
            match exprs_at(ts, at as nat) {
                Ok(rest) => goal == Ok::<Seq<Expr>, ErrorView>(exprs(es@) + rest),
                Err(e) => goal == Err::<Seq<Expr>, ErrorView>(e),
            },
        decreases tokens@.len() - at,
    {
        let ghost before = es@;
        proof {
            lemma_expr_at(ts, at as nat);
        }
        match parse_expr(tokens, at) {
            Err(e) => {
                return Err(e);
            },
            Ok((x, next)) => {
                let ghost first = expr(x);
                es.push(x);
                at = next;
                proof {
                    assert(exprs(es@) =~= exprs(before).push(first));
                    if let Ok(rest) = exprs_at(ts, at as nat) {
                        assert(exprs(before) + (seq![first] + rest) =~= exprs(es@) + rest);
                    }
                }
            },
        }
    }
    assert(exprs(es@) + Seq::empty() =~= exprs(es@));
    Ok(es)
}

// ---------------------------------------------------------------------------
// From expressions to clauses.
// ---------------------------------------------------------------------------
/// Whether a name is a variable: it starts with an upper-case letter or `_`.
pub open spec fn is_variable(name: Seq<char>) -> bool {
    name.len() > 0 && (upper_case(name[0]) || name[0] == '_')
}

/// Whether a name is a variable.
pub(crate) fn is_variable_name(s: &str) -> (r: bool)
    ensures
        r == is_variable(s@),
{
    match first_char(s) {
        Some(c) => c.is_uppercase() || c == '_',
        None => false,
    }
}

/// The names with `n` among them: at the end where it is new.
pub open spec fn interned(names: Seq<Seq<char>>, n: Seq<char>) -> Seq<Seq<char>> {
    if names.contains(n) {
        names
    } else {
        names.push(n)
    }
}

/// The number of the name `n`.
pub open spec fn id_in(names: Seq<Seq<char>>, n: Seq<char>) -> u32 {
    interned(names, n).index_of(n) as u32
}

/// Numbers a name.
pub(crate) fn intern_in(table: &mut SymbolTable, name: &str) -> (r: u32)
    requires
        old(table).wf(),
        interned(old(table)@, name@).len() <= u32::MAX,
    ensures
        final(table).wf(),
        final(table)@ == interned(old(table)@, name@),
        r == id_in(old(table)@, name@),
{
    let r: u32 = table.intern(name);
    proof {
        let i = table@.index_of(name@);
        assert(table@[r as int] == name@);
        assert(table@.contains(name@));
        table.names_are_distinct(i, r as int);
    }
    r
}

/// What is known while a clause is read: the names of all symbols, the names
/// of the clause's variables, and the terms that were built.
#[verifier::ext_equal]
pub struct Scope {
    pub names: Seq<Seq<char>>,
    pub vars: Seq<Seq<char>>,
    pub forest: Forest,
}

/// What is known between two clauses: the names of all symbols, and the terms
/// that were built.
#[verifier::ext_equal]
pub struct Known {
    pub names: Seq<Seq<char>>,
    pub forest: Forest,
}

impl Known {
    /// Whether 32-bit numbers suffice.
    pub open spec fn in_range(self) -> bool {
        self.names.len() <= u32::MAX && numbered(self.forest)
    }

    /// The start of a clause.
    pub open spec fn scope(self) -> Scope {
        Scope { names: self.names, vars: Seq::empty(), forest: self.forest }
    }
}

impl Scope {
    /// Whether 32-bit numbers suffice.
    pub open spec fn in_range(self) -> bool {
        self.names.len() <= u32::MAX && self.vars.len() <= u32::MAX && numbered(self.forest)
    }

    /// Whether the terms of the variables were built.
    pub open spec fn vars_built(self) -> bool {
        forall|v: VarId| v < self.vars.len() ==> #[trigger] self.forest.contains(Tree::Var(v))
    }

    /// The end of a clause.
    pub open spec fn known(self) -> Known {
        Known { names: self.names, forest: self.forest }
    }

    /// The scope with a symbol numbered.
    pub open spec fn with_name(self, name: Seq<char>) -> Scope {
        Scope { names: interned(self.names, name), vars: self.vars, forest: self.forest }
    }

    /// The scope with a variable numbered.
    pub open spec fn with_var(self, name: Seq<char>) -> Scope {
        Scope { names: self.names, vars: interned(self.vars, name), forest: self.forest }
    }

    /// The scope with one more term built.
    pub open spec fn built(self, t: Tree) -> Scope {
        Scope { names: self.names, vars: self.vars, forest: with_tree(self.forest, t) }
    }
}

/// What a symbol table and an arena hold.
pub open spec fn known(symbols: &SymbolTable, arena: &TermArena) -> Known {
    Known { names: symbols@, forest: arena.forest() }
}

/// The term that an expression stands for, and what is known after it.
pub open spec fn term_of(x: Expr, sc: Scope) -> (Result<Tree, ErrorView>, Scope)
    decreases x, 0int,
{
    match x {
        Expr::Atom(_, name) => if is_variable(name) {
            (
                Ok(Tree::Var(id_in(sc.vars, name))),
                sc.with_var(name).built(Tree::Var(id_in(sc.vars, name))),
            )
        } else {
            (
                Ok(Tree::App(id_in(sc.names, name), Seq::empty())),
                sc.with_name(name).built(Tree::App(id_in(sc.names, name), Seq::empty())),
            )
        },
        Expr::List(line, items) => if items.len() == 0 {
            (Err(error_at(line, "'()' bukan term yang valid"@)), sc)
        } else {
            match items[0] {
                Expr::List(at, _) => (
                    Err(error_at(at, "kepala function application harus simbol, bukan list"@)),
                    sc,
                ),
                Expr::Atom(at, head) => if is_variable(head) {
                    (Err(error_at(at, variable_message(head, "function"@))), sc)
                } else {
                    let sc1 = sc.with_name(head);
                    match terms_of(items, 1, sc1) {
                        (Ok(ts), sc2) => (
                            Ok(Tree::App(id_in(sc.names, head), ts)),
                            sc2.built(Tree::App(id_in(sc.names, head), ts)),
                        ),
                        (Err(e), sc2) => (Err(e), sc2),
                    }
                },
            }
        },
    }
}

/// The terms that the expressions from position `k` on stand for.
pub open spec fn terms_of(items: Seq<Expr>, k: nat, sc: Scope) -> (
    Result<Seq<Tree>, ErrorView>,
    Scope,
)
    decreases items, items.len() - k,
{
    if k >= items.len() {
        (Ok(Seq::empty()), sc)
    } else {
        match term_of(items[k as int], sc) {
            (Err(e), sc1) => (Err(e), sc1),
            (Ok(t), sc1) => match terms_of(items, k + 1, sc1) {
                (Err(e), sc2) => (Err(e), sc2),
                (Ok(ts), sc2) => (Ok(seq![t] + ts), sc2),
            },
        }
    }
}

/// The message on a variable where the name of a `what` has to stand.
pub open spec fn variable_message(name: Seq<char>, what: Seq<char>) -> Seq<char> {
    "'"@ + name
        + "' diawali huruf besar (dianggap variable), tidak bisa dipakai sebagai nama "@ + what
}

/// The predicate and arguments that an expression stands for.
pub open spec fn predicate_of(x: Expr, sc: Scope) -> (
    Result<(SymbolId, Seq<Tree>), ErrorView>,
    Scope,
) {
    match x {
        Expr::Atom(line, name) => if is_variable(name) {
            (Err(error_at(line, variable_message(name, "predicate"@))), sc)
        } else {
            (
                Ok((id_in(sc.names, name), Seq::empty())),
                sc.with_name(name),
            )
        },
        Expr::List(line, items) => if items.len() == 0 {
            (Err(error_at(line, "'()' bukan literal yang valid"@)), sc)
        } else {
            match items[0] {
                Expr::List(at, _) => (
                    Err(error_at(at, "kepala predicate harus simbol, bukan list"@)),
                    sc,
                ),
                Expr::Atom(at, head) => if is_variable(head) {
                    (Err(error_at(at, variable_message(head, "predicate"@))), sc)
                } else {
                    let sc1 = sc.with_name(head);
                    match terms_of(items, 1, sc1) {
                        (Ok(ts), sc2) => (Ok((id_in(sc.names, head), ts)), sc2),
                        (Err(e), sc2) => (Err(e), sc2),
                    }
                },
            }
        },
    }
}

/// Whether an expression is a list that starts with `not`.
pub open spec fn is_negation(x: Expr) -> bool {
    x matches Expr::List(_, items) && items.len() > 0 && (items[0] matches Expr::Atom(_, head)
        && head == "not"@)
}

/// The literal that an expression stands for.
pub open spec fn literal_of(x: Expr, sc: Scope) -> (Result<Lit, ErrorView>, Scope) {
    if is_negation(x) && x->List_1.len() != 2 {
        (Err(error_at(x.line(), "'not' butuh tepat 1 argumen: (not (pred arg...))"@)), sc)
    } else {
        let inner = if is_negation(x) {
            x->List_1[1]
        } else {
            x
        };
        match predicate_of(inner, sc) {
            (Ok((predicate, args)), sc1) => (
                Ok(Lit { positive: !is_negation(x), predicate, args }),
                sc1,
            ),
            (Err(e), sc1) => (Err(e), sc1),
        }
    }
}

/// The literals that the expressions from position `k` on stand for.
pub open spec fn literals_of(items: Seq<Expr>, k: nat, sc: Scope) -> (
    Result<Seq<Lit>, ErrorView>,
    Scope,
)
    decreases items.len() - k,
{
    if k >= items.len() {
        (Ok(Seq::empty()), sc)
    } else {
        match literal_of(items[k as int], sc) {
            (Err(e), sc1) => (Err(e), sc1),
            (Ok(l), sc1) => match literals_of(items, k + 1, sc1) {
                (Err(e), sc2) => (Err(e), sc2),
                (Ok(ls), sc2) => (Ok(seq![l] + ls), sc2),
            },
        }
    }
}

/// The clause that an expression stands for, and what is known after it.
/// Each clause has variables of its own.
pub open spec fn clause_of(x: Expr, kn: Known) -> (
    Result<Seq<Lit>, ErrorView>,
    Known,
) {
    match x {
        Expr::Atom(line, _) => (
            Err(
                error_at(
                    line,
                    "form top-level harus berbentuk (clause <literal>...), bukan atom lepas"@,
                ),
            ),
            kn,
        ),
        Expr::List(line, items) => if items.len() == 0 {
            (
                Err(
                    error_at(line, "form top-level kosong, harus (clause <literal>...)"@),
                ),
                kn,
            )
        } else if items[0] matches Expr::Atom(_, head) && head == "clause"@ {
            let (r, sc) = literals_of(items, 1, kn.scope());
            (r, sc.known())
        } else {
            (
                Err(
                    error_at(items[0].line(), "form top-level harus diawali simbol 'clause'"@),
                ),
                kn,
            )
        },
    }
}

/// The clauses that the expressions from position `k` on stand for.
pub open spec fn clauses_of(forms: Seq<Expr>, k: nat, kn: Known) -> (
    Result<Seq<Seq<Lit>>, ErrorView>,
    Known,
)
    decreases forms.len() - k,
{
    if k >= forms.len() {
        (Ok(Seq::empty()), kn)
    } else {
        match clause_of(forms[k as int], kn) {
            (Err(e), kn1) => (Err(e), kn1),
            (Ok(c), kn1) => match clauses_of(forms, k + 1, kn1) {
                (Err(e), kn2) => (Err(e), kn2),
                (Ok(cs), kn2) => (Ok(seq![c] + cs), kn2),
            },
        }
    }
}

/// The clauses of a problem text, or the first error in it, and the symbols
/// known after reading it.
pub open spec fn problem_of(text: Seq<char>, kn: Known) -> (
    Result<Seq<Seq<Lit>>, ErrorView>,
    Known,
) {
    match exprs_at(tokens_from(text, 0, 1), 0) {
        Err(e) => (Err(e), kn),
        Ok(forms) => clauses_of(forms, 0, kn),
    }
}

// ---------------------------------------------------------------------------
// What is read is not larger than its text.
// ---------------------------------------------------------------------------
proof fn lemma_term_size(x: Expr, sc: Scope)
    ensures
        term_of(x, sc).0 matches Ok(t) ==> t.size() <= x.count(),
    decreases x, 0int,
{
    if let Expr::List(_, items) = x {
        if items.len() > 0 {
            if let Expr::Atom(_, head) = items[0] {
                let sc1 = sc.with_name(head);
                lemma_terms_size(items, 1, sc1);
                assert(counts(items, 1) == counts(items, 0) + items[0].count());
            }
        }
    }
}

proof fn lemma_terms_size(items: Seq<Expr>, k: nat, sc: Scope)
    requires
        k <= items.len(),
    ensures
        terms_of(items, k, sc).0 matches Ok(ts) ==> ts.len() == items.len() - k && sizes(
            ts,
            ts.len(),
        ) <= counts(items, items.len()) - counts(items, k),
    decreases items, items.len() - k,
{
    if k < items.len() {
        lemma_term_size(items[k as int], sc);
        if let (Ok(t), sc1) = term_of(items[k as int], sc) {
            lemma_terms_size(items, k + 1, sc1);
            if let (Ok(ts), sc2) = terms_of(items, k + 1, sc1) {
                lemma_sizes_cons(t, ts, ts.len());
            }
        }
    }
}

/// The sizes of a list with one more tree in front.
pub(crate) proof fn lemma_sizes_cons(t: Tree, ts: Seq<Tree>, k: nat)
    requires
        k <= ts.len(),
    ensures
        sizes(seq![t] + ts, k + 1) == t.size() + sizes(ts, k),
    decreases k,
{
    let all = seq![t] + ts;
    if k > 0 {
        lemma_sizes_cons(t, ts, (k - 1) as nat);
        assert(all[k as int] == ts[k - 1]);
    } else {
        assert(all[0] == t);
        assert(sizes(all, 1) == sizes(all, 0) + all[0].size());
    }
}

/// The weights of a list with one more literal in front.
pub(crate) proof fn lemma_weights_cons(l: Lit, ls: Seq<Lit>, k: nat)
    requires
        k <= ls.len(),
    ensures
        weights(seq![l] + ls, k + 1) == l.weight() + weights(ls, k),
    decreases k,
{
    let all = seq![l] + ls;
    if k > 0 {
        lemma_weights_cons(l, ls, (k - 1) as nat);
        assert(all[k as int] == ls[k - 1]);
    } else {
        assert(all[0] == l);
        assert(weights(all, 1) == weights(all, 0) + all[0].weight());
    }
}

proof fn lemma_literal_weight(x: Expr, sc: Scope)
    ensures
        literal_of(x, sc).0 matches Ok(l) ==> l.weight() <= x.count(),
{
    let inner = if is_negation(x) {
        x->List_1[1]
    } else {
        x
    };
    if is_negation(x) && x->List_1.len() == 2 {
        let items = x->List_1;
        assert(counts(items, 2) == counts(items, 1) + items[1].count());
    }
    if let Expr::List(_, items) = inner {
        if items.len() > 0 {
            if let Expr::Atom(_, head) = items[0] {
                let sc1 = sc.with_name(head);
                lemma_terms_size(items, 1, sc1);
                assert(counts(items, 1) == counts(items, 0) + items[0].count());
            }
        }
    }
}

proof fn lemma_literals_weight(items: Seq<Expr>, k: nat, sc: Scope)
    requires
        k <= items.len(),
    ensures
        literals_of(items, k, sc).0 matches Ok(ls) ==> weights(ls, ls.len()) <= counts(
            items,
            items.len(),
        ) - counts(items, k),
    decreases items.len() - k,
{
    if k < items.len() {
        lemma_literal_weight(items[k as int], sc);
        if let (Ok(l), sc1) = literal_of(items[k as int], sc) {
            lemma_literals_weight(items, k + 1, sc1);
            if let (Ok(ls), sc2) = literals_of(items, k + 1, sc1) {
                lemma_weights_cons(l, ls, ls.len());
            }
        }
    }
}

proof fn lemma_clause_weight(x: Expr, kn: Known)
    ensures
        clause_of(x, kn).0 matches Ok(ls) ==> weights(ls, ls.len()) < x.count(),
{
    if let Expr::List(_, items) = x {
        if items.len() > 0 {
            lemma_literals_weight(items, 1, kn.scope());
            assert(counts(items, 1) == counts(items, 0) + items[0].count());
        }
    }
}

proof fn lemma_clauses_weight(forms: Seq<Expr>, k: nat, kn: Known)
    requires
        k <= forms.len(),
    ensures
        clauses_of(forms, k, kn).0 matches Ok(cs) ==> {
            &&& cs.len() <= counts(forms, forms.len()) - counts(forms, k)
            &&& forall|i: int|
                0 <= i < cs.len() ==> weights(#[trigger] cs[i], cs[i].len()) <= counts(
                    forms,
                    forms.len(),
                )
        },
    decreases forms.len() - k,
{
    if k < forms.len() {
        lemma_clause_weight(forms[k as int], kn);
        lemma_counts_monotonic(forms, k + 1, forms.len());
        if let (Ok(c), kn1) = clause_of(forms[k as int], kn) {
            lemma_clauses_weight(forms, k + 1, kn1);
            if let (Ok(cs), kn2) = clauses_of(forms, k + 1, kn1) {
                let all = seq![c] + cs;
                assert forall|i: int| 0 <= i < all.len() implies weights(
                    #[trigger] all[i],
                    all[i].len(),
                ) <= counts(forms, forms.len()) by {
                    if i > 0 {
                        assert(all[i] == cs[i - 1]);
                    }
                }
            }
        }
    }
}

/// A text has at least as many characters as it has clauses, and as any of its
/// clauses weighs.
pub proof fn problem_is_no_larger_than_its_text(text: Seq<char>, kn: Known)
    ensures
        problem_of(text, kn).0 matches Ok(cs) ==> {
            &&& cs.len() <= text.len()
            &&& forall|i: int|
                0 <= i < cs.len() ==> weights(#[trigger] cs[i], cs[i].len()) <= text.len()
        },
{
    let ts = tokens_from(text, 0, 1);
    lemma_tokens(text, 0, 1);
    lemma_exprs_at(ts, 0);
    if let Ok(forms) = exprs_at(ts, 0) {
        lemma_clauses_weight(forms, 0, kn);
    }
}

// ---------------------------------------------------------------------------
// Errors are in a line of the text.
// ---------------------------------------------------------------------------
/// Number of line breaks from position `i` on.
pub open spec fn breaks_from(s: Seq<char>, i: nat) -> nat
    decreases s.len() - i,
{
    if i >= s.len() {
        0
    } else if s[i as int] == '\n' {
        1 + breaks_from(s, i + 1)
    } else {
        breaks_from(s, i + 1)
    }
}

/// Number of lines of a text.
pub open spec fn line_count(s: Seq<char>) -> nat {
    1 + breaks_from(s, 0)
}

/// The further on, the fewer line breaks are left.
pub(crate) proof fn lemma_breaks_from(s: Seq<char>, i: nat, j: nat)
    requires
        i <= j,
    ensures
        breaks_from(s, j) <= breaks_from(s, i),
    decreases j - i,
{
    if i < j {
        lemma_breaks_from(s, i + 1, j);
    }
}

proof fn lemma_token_lines(s: Seq<char>, i: nat, line: nat)
    ensures
        forall|k: int|
            0 <= k < tokens_from(s, i, line).len() ==> line <= (#[trigger] tokens_from(
                s,
                i,
                line,
            )[k]).1 <= line + breaks_from(s, i),
    decreases s.len() - i,
{
    if i < s.len() {
        let c = s[i as int];
        lemma_line_end(s, i + 1);
        lemma_symbol_end(s, i + 1);
        let (next, next_line) = if c == '\n' {
            (i + 1, line + 1)
        } else if c == ';' {
            (line_end(s, i + 1), line)
        } else if c == '(' || c == ')' || c == ' ' || c == '\t' || c == '\r' || white_space(c) {
            (i + 1, line)
        } else {
            (symbol_end(s, i + 1), line)
        };
        lemma_token_lines(s, next, next_line);
        lemma_breaks_from(s, i + 1, next);
        let all = tokens_from(s, i, line);
        let rest = tokens_from(s, next, next_line);
        let first = all.len() - rest.len();
        assert forall|k: int| 0 <= k < all.len() implies line <= (#[trigger] all[k]).1 <= line
            + breaks_from(s, i) by {
            if k >= first {
                assert(all[k] == rest[k - first]);
            }
        }
    }
}

/// Whether the expression and everything in it starts in one of the first
/// `last` lines.
spec fn starts_within(x: Expr, last: nat) -> bool
    decreases x,
{
    match x {
        Expr::Atom(line, _) => 1 <= line <= last,
        Expr::List(line, items) => 1 <= line <= last && forall|i: int|
            0 <= i < items.len() ==> starts_within(#[trigger] items[i], last),
    }
}

spec fn all_start_within(items: Seq<Expr>, last: nat) -> bool {
    forall|i: int| 0 <= i < items.len() ==> starts_within(#[trigger] items[i], last)
}

spec fn lines_within(ts: Seq<(Tok, nat)>, last: nat) -> bool {
    forall|k: int| 0 <= k < ts.len() ==> 1 <= (#[trigger] ts[k]).1 <= last
}

proof fn lemma_cons_within(first: Expr, rest: Seq<Expr>, last: nat)
    requires
        starts_within(first, last),
        all_start_within(rest, last),
    ensures
        all_start_within(seq![first] + rest, last),
{
    let all = seq![first] + rest;
    assert forall|i: int| 0 <= i < all.len() implies starts_within(#[trigger] all[i], last) by {
        if i > 0 {
            assert(all[i] == rest[i - 1]);
        }
    }
}

proof fn lemma_expr_lines(ts: Seq<(Tok, nat)>, pos: nat, last: nat)
    requires
        pos < ts.len(),
        lines_within(ts, last),
    ensures
        match expr_at(ts, pos) {
            Ok((x, _)) => starts_within(x, last),
            Err(e) => 1 <= e.line <= last,
        },
    decreases ts.len() - pos, 0nat,
{
    let line = ts[pos as int].1;
    if ts[pos as int].0 == Tok::LParen {
        lemma_items_lines(ts, pos + 1, line, last);
    }
}

proof fn lemma_items_lines(ts: Seq<(Tok, nat)>, pos: nat, line: nat, last: nat)
    requires
        lines_within(ts, last),
        1 <= line <= last,
    ensures
        match items_at(ts, pos, line) {
            Ok((xs, _)) => all_start_within(xs, last),
            Err(e) => 1 <= e.line <= last,
        },
    decreases ts.len() - pos, 1nat,
{
    if pos < ts.len() && ts[pos as int].0 != Tok::RParen {
        lemma_expr_lines(ts, pos, last);
        if let Ok((first, next)) = expr_at(ts, pos) {
            lemma_expr_at(ts, pos);
            lemma_items_lines(ts, next, line, last);
            if let Ok((rest, _)) = items_at(ts, next, line) {
                lemma_cons_within(first, rest, last);
            }
        }
    }
}

proof fn lemma_exprs_lines(ts: Seq<(Tok, nat)>, pos: nat, last: nat)
    requires
        lines_within(ts, last),
    ensures
        match exprs_at(ts, pos) {
            Ok(xs) => all_start_within(xs, last),
            Err(e) => 1 <= e.line <= last,
        },
    decreases ts.len() - pos,
{
    if pos < ts.len() {
        lemma_expr_lines(ts, pos, last);
        if let Ok((first, next)) = expr_at(ts, pos) {
            lemma_expr_at(ts, pos);
            lemma_exprs_lines(ts, next, last);
            if let Ok(rest) = exprs_at(ts, next) {
                lemma_cons_within(first, rest, last);
            }
        }
    }
}

proof fn lemma_term_lines(x: Expr, sc: Scope, last: nat)
    requires
        starts_within(x, last),
    ensures
        term_of(x, sc).0 matches Err(e) ==> 1 <= e.line <= last,
    decreases x, 0int,
{
    if let Expr::List(_, items) = x {
        if items.len() > 0 {
            assert(starts_within(items[0], last));
            if let Expr::Atom(_, head) = items[0] {
                let sc1 = sc.with_name(head);
                lemma_terms_lines(items, 1, sc1, last);
            }
        }
    }
}

proof fn lemma_terms_lines(items: Seq<Expr>, k: nat, sc: Scope, last: nat)
    requires
        all_start_within(items, last),
    ensures
        terms_of(items, k, sc).0 matches Err(e) ==> 1 <= e.line <= last,
    decreases items, items.len() - k,
{
    if k < items.len() {
        lemma_term_lines(items[k as int], sc, last);
        if let (Ok(_), sc1) = term_of(items[k as int], sc) {
            lemma_terms_lines(items, k + 1, sc1, last);
        }
    }
}

proof fn lemma_literal_lines(x: Expr, sc: Scope, last: nat)
    requires
        starts_within(x, last),
    ensures
        literal_of(x, sc).0 matches Err(e) ==> 1 <= e.line <= last,
{
    let inner = if is_negation(x) && x->List_1.len() == 2 {
        x->List_1[1]
    } else {
        x
    };
    assert(starts_within(inner, last));
    if let Expr::List(_, items) = inner {
        if items.len() > 0 {
            assert(starts_within(items[0], last));
            if let Expr::Atom(_, head) = items[0] {
                let sc1 = sc.with_name(head);
                lemma_terms_lines(items, 1, sc1, last);
            }
        }
    }
}

proof fn lemma_literals_lines(items: Seq<Expr>, k: nat, sc: Scope, last: nat)
    requires
        all_start_within(items, last),
    ensures
        literals_of(items, k, sc).0 matches Err(e) ==> 1 <= e.line <= last,
    decreases items.len() - k,
{
    if k < items.len() {
        lemma_literal_lines(items[k as int], sc, last);
        if let (Ok(_), sc1) = literal_of(items[k as int], sc) {
            lemma_literals_lines(items, k + 1, sc1, last);
        }
    }
}

proof fn lemma_clauses_lines(forms: Seq<Expr>, k: nat, kn: Known, last: nat)
    requires
        all_start_within(forms, last),
    ensures
        clauses_of(forms, k, kn).0 matches Err(e) ==> 1 <= e.line <= last,
    decreases forms.len() - k,
{
    if k < forms.len() {
        let x = forms[k as int];
        assert(starts_within(x, last));
        if let Expr::List(_, items) = x {
            if items.len() > 0 {
                assert(starts_within(items[0], last));
                lemma_literals_lines(items, 1, kn.scope(), last);
            }
        }
        if let (Ok(_), kn1) = clause_of(x, kn) {
            lemma_clauses_lines(forms, k + 1, kn1, last);
        }
    }
}

/// An error is in a line of the text, counted from 1.
pub proof fn errors_are_in_the_text(text: Seq<char>, kn: Known)
    ensures
        problem_of(text, kn).0 matches Err(e) ==> 1 <= e.line <= line_count(text),
{
    let ts = tokens_from(text, 0, 1);
    let last = line_count(text);
    lemma_token_lines(text, 0, 1);
    lemma_exprs_lines(ts, 0, last);
    if let Ok(forms) = exprs_at(ts, 0) {
        lemma_clauses_lines(forms, 0, kn, last);
    }
}

// ---------------------------------------------------------------------------
// What is built is what is read.
// ---------------------------------------------------------------------------
/// The forest after building the literals of the first `k` clauses.
pub open spec fn plant_clauses(f: Forest, cs: Seq<Seq<Lit>>, k: nat) -> Forest
    decreases k,
{
    if 0 < k <= cs.len() {
        plant_lits(plant_clauses(f, cs, (k - 1) as nat), cs[k - 1], cs[k - 1].len())
    } else {
        f
    }
}

/// Building literals starts with the first.
pub(crate) proof fn lemma_plant_lits_cons(f: Forest, l: Lit, ls: Seq<Lit>, k: nat)
    requires
        k <= ls.len(),
    ensures
        plant_lits(f, seq![l] + ls, k + 1) == plant_lits(
            plant_list(f, l.args, l.args.len()),
            ls,
            k,
        ),
    decreases k,
{
    let all = seq![l] + ls;
    if k == 0 {
        assert(plant_lits(f, all, 0) == f);
        assert(all[0] == l);
    } else {
        lemma_plant_lits_cons(f, l, ls, (k - 1) as nat);
        assert(all[k as int] == ls[k - 1]);
    }
}

/// Building clauses starts with the first.
pub(crate) proof fn lemma_plant_clauses_cons(f: Forest, c: Seq<Lit>, cs: Seq<Seq<Lit>>, k: nat)
    requires
        k <= cs.len(),
    ensures
        plant_clauses(f, seq![c] + cs, k + 1) == plant_clauses(
            plant_lits(f, c, c.len()),
            cs,
            k,
        ),
    decreases k,
{
    let all = seq![c] + cs;
    if k == 0 {
        assert(plant_clauses(f, all, 0) == f);
        assert(all[0] == c);
    } else {
        lemma_plant_clauses_cons(f, c, cs, (k - 1) as nat);
        assert(all[k as int] == cs[k - 1]);
    }
}

proof fn lemma_term_built(x: Expr, sc: Scope)
    ensures
        term_of(x, sc).0 matches Ok(t) ==> term_of(x, sc).1.forest == plant(sc.forest, t),
    decreases x, 0int,
{
    match x {
        Expr::Atom(_, name) => {
            assert(plant_list(sc.forest, Seq::empty(), 0) == sc.forest);
        },
        Expr::List(_, items) => {
            if items.len() > 0 {
                if let Expr::Atom(_, head) = items[0] {
                    lemma_terms_built(items, 1, sc.with_name(head));
                }
            }
        },
    }
}

proof fn lemma_terms_built(items: Seq<Expr>, k: nat, sc: Scope)
    ensures
        terms_of(items, k, sc).0 matches Ok(ts) ==> terms_of(items, k, sc).1.forest == plant_list(
            sc.forest,
            ts,
            ts.len(),
        ),
    decreases items, items.len() - k,
{
    if k < items.len() {
        lemma_term_built(items[k as int], sc);
        if let (Ok(t), sc1) = term_of(items[k as int], sc) {
            lemma_terms_built(items, k + 1, sc1);
            if let (Ok(ts), _) = terms_of(items, k + 1, sc1) {
                lemma_plant_cons(sc.forest, t, ts, ts.len());
            }
        }
    }
}

proof fn lemma_literal_built(x: Expr, sc: Scope)
    ensures
        literal_of(x, sc).0 matches Ok(l) ==> literal_of(x, sc).1.forest == plant_list(
            sc.forest,
            l.args,
            l.args.len(),
        ),
{
    let inner = if is_negation(x) && x->List_1.len() == 2 {
        x->List_1[1]
    } else {
        x
    };
    if let Expr::List(_, items) = inner {
        if items.len() > 0 {
            if let Expr::Atom(_, head) = items[0] {
                lemma_terms_built(items, 1, sc.with_name(head));
            }
        }
    }
}

proof fn lemma_literals_built(items: Seq<Expr>, k: nat, sc: Scope)
    ensures
        literals_of(items, k, sc).0 matches Ok(ls) ==> literals_of(items, k, sc).1.forest
            == plant_lits(sc.forest, ls, ls.len()),
    decreases items.len() - k,
{
    if k < items.len() {
        lemma_literal_built(items[k as int], sc);
        if let (Ok(l), sc1) = literal_of(items[k as int], sc) {
            lemma_literals_built(items, k + 1, sc1);
            if let (Ok(ls), _) = literals_of(items, k + 1, sc1) {
                lemma_plant_lits_cons(sc.forest, l, ls, ls.len());
            }
        }
    }
}

proof fn lemma_clauses_built(forms: Seq<Expr>, k: nat, kn: Known)
    ensures
        clauses_of(forms, k, kn).0 matches Ok(cs) ==> clauses_of(forms, k, kn).1.forest
            == plant_clauses(kn.forest, cs, cs.len()),
    decreases forms.len() - k,
{
    if k < forms.len() {
        if let Expr::List(_, items) = forms[k as int] {
            lemma_literals_built(items, 1, kn.scope());
        }
        if let (Ok(c), kn1) = clause_of(forms[k as int], kn) {
            lemma_clauses_built(forms, k + 1, kn1);
            if let (Ok(cs), _) = clauses_of(forms, k + 1, kn1) {
                lemma_plant_clauses_cons(kn.forest, c, cs, cs.len());
            }
        }
    }
}

/// Reading a problem builds the terms of its clauses and nothing else; where
/// parentheses do not match it builds nothing.
pub proof fn reading_builds_the_clauses(text: Seq<char>, kn: Known)
    ensures
        problem_of(text, kn).0 matches Ok(cs) ==> problem_of(text, kn).1.forest == plant_clauses(
            kn.forest,
            cs,
            cs.len(),
        ),
        exprs_at(tokens_from(text, 0, 1), 0) is Err ==> problem_of(text, kn).1 == kn,
{
    if let Ok(forms) = exprs_at(tokens_from(text, 0, 1), 0) {
        lemma_clauses_built(forms, 0, kn);
    }
}

// ---------------------------------------------------------------------------
// Reading adds to what is known.
// ---------------------------------------------------------------------------
/// Whether what is known in `a` is known in `b`.
pub(crate) open spec fn grows(a: Scope, b: Scope) -> bool {
    &&& a.names.is_prefix_of(b.names)
    &&& a.vars.is_prefix_of(b.vars)
    &&& a.forest.is_prefix_of(b.forest)
    &&& a.vars_built() ==> b.vars_built()
}

pub(crate) proof fn lemma_grows_self(a: Scope)
    ensures
        grows(a, a),
{
    assert(a.names =~= a.names.subrange(0, a.names.len() as int));
    assert(a.vars =~= a.vars.subrange(0, a.vars.len() as int));
    assert(a.forest =~= a.forest.subrange(0, a.forest.len() as int));
}

pub(crate) proof fn lemma_grows_trans(a: Scope, b: Scope, c: Scope)
    requires
        grows(a, b),
        grows(b, c),
    ensures
        grows(a, c),
{
    lemma_prefix_trans(a.names, b.names, c.names);
    lemma_prefix_trans(a.vars, b.vars, c.vars);
    lemma_prefix_trans(a.forest, b.forest, c.forest);
}

/// Where numbers suffice for what is known later, they suffice before.
pub(crate) proof fn lemma_in_range_before(a: Scope, b: Scope)
    requires
        grows(a, b),
        b.in_range(),
    ensures
        a.in_range(),
{
    lemma_numbered_prefix(a.forest, b.forest);
}

/// Where the terms of the variables were built and have numbers, so have the
/// variables.
pub(crate) proof fn lemma_vars_in_range(sc: Scope)
    requires
        sc.vars_built(),
        numbered(sc.forest),
    ensures
        sc.vars.len() <= u32::MAX,
{
    if sc.vars.len() > u32::MAX {
        assert forall|v: u32| v < u32::MAX + 1 implies #[trigger] sc.forest.contains(
            Tree::Var(v),
        ) by {}
        lemma_many_vars(sc.forest, (u32::MAX + 1) as nat);
    }
}

proof fn lemma_interned_prefix(names: Seq<Seq<char>>, n: Seq<char>)
    ensures
        names.is_prefix_of(interned(names, n)),
        interned(names, n).len() <= names.len() + 1,
{
    assert(names =~= interned(names, n).subrange(0, names.len() as int));
}

pub(crate) proof fn lemma_with_name_grows(sc: Scope, name: Seq<char>)
    ensures
        grows(sc, sc.with_name(name)),
{
    lemma_grows_self(sc);
    lemma_interned_prefix(sc.names, name);
}

pub(crate) proof fn lemma_built_grows(sc: Scope, t: Tree)
    ensures
        grows(sc, sc.built(t)),
{
    lemma_grows_self(sc);
    lemma_with_tree(sc.forest, t);
    if sc.vars_built() {
        assert forall|v: VarId| v < sc.vars.len() implies #[trigger] sc.built(t).forest.contains(
            Tree::Var(v),
        ) by {
            lemma_contains_prefix(sc.forest, sc.built(t).forest, Tree::Var(v));
        }
    }
}

/// A new variable is built with its number.
pub(crate) proof fn lemma_var_grows(sc: Scope, name: Seq<char>)
    ensures
        grows(sc, sc.with_var(name).built(Tree::Var(id_in(sc.vars, name)))),
{
    let t = Tree::Var(id_in(sc.vars, name));
    let sc1 = sc.with_var(name).built(t);
    lemma_grows_self(sc);
    lemma_interned_prefix(sc.vars, name);
    lemma_with_tree(sc.forest, t);
    if sc.vars_built() {
        assert forall|v: VarId| v < sc1.vars.len() implies #[trigger] sc1.forest.contains(
            Tree::Var(v),
        ) by {
            if v < sc.vars.len() {
                assert(sc.forest.contains(Tree::Var(v)));
                lemma_contains_prefix(sc.forest, sc1.forest, Tree::Var(v));
            } else {
                assert(!sc.vars.contains(name));
                let all = sc.vars.push(name);
                assert(all[sc.vars.len() as int] == name);
                assert(all.contains(name));
                let i = all.index_of(name);
                assert(all[i] == name);
                if i < sc.vars.len() {
                    assert(sc.vars[i] == name);
                }
                assert(i == v);
            }
        }
    }
}

proof fn lemma_term_grows(x: Expr, sc: Scope)
    ensures
        grows(sc, term_of(x, sc).1),
    decreases x, 0int,
{
    lemma_grows_self(sc);
    match x {
        Expr::Atom(_, name) => {
            lemma_var_grows(sc, name);
            let t = Tree::App(id_in(sc.names, name), Seq::empty());
            lemma_with_name_grows(sc, name);
            lemma_built_grows(sc.with_name(name), t);
            lemma_grows_trans(sc, sc.with_name(name), sc.with_name(name).built(t));
        },
        Expr::List(_, items) => {
            if items.len() > 0 {
                if let Expr::Atom(_, head) = items[0] {
                    let sc1 = sc.with_name(head);
                    lemma_with_name_grows(sc, head);
                    lemma_terms_grow(items, 1, sc1);
                    let sc2 = terms_of(items, 1, sc1).1;
                    lemma_grows_trans(sc, sc1, sc2);
                    if let Ok(ts) = terms_of(items, 1, sc1).0 {
                        let t = Tree::App(id_in(sc.names, head), ts);
                        lemma_built_grows(sc2, t);
                        lemma_grows_trans(sc, sc2, sc2.built(t));
                    }
                }
            }
        },
    }
}

pub(crate) proof fn lemma_terms_grow(items: Seq<Expr>, k: nat, sc: Scope)
    ensures
        grows(sc, terms_of(items, k, sc).1),
    decreases items, items.len() - k,
{
    lemma_grows_self(sc);
    if k < items.len() {
        lemma_term_grows(items[k as int], sc);
        if let (Ok(_), sc1) = term_of(items[k as int], sc) {
            lemma_terms_grow(items, k + 1, sc1);
            lemma_grows_trans(sc, sc1, terms_of(items, k + 1, sc1).1);
        }
    }
}

proof fn lemma_literal_grows(x: Expr, sc: Scope)
    ensures
        grows(sc, literal_of(x, sc).1),
{
    lemma_grows_self(sc);
    let inner = if is_negation(x) && x->List_1.len() == 2 {
        x->List_1[1]
    } else {
        x
    };
    match inner {
        Expr::Atom(_, name) => {
            lemma_with_name_grows(sc, name);
        },
        Expr::List(_, items) => {
            if items.len() > 0 {
                if let Expr::Atom(_, head) = items[0] {
                    let sc1 = sc.with_name(head);
                    lemma_with_name_grows(sc, head);
                    lemma_terms_grow(items, 1, sc1);
                    lemma_grows_trans(sc, sc1, terms_of(items, 1, sc1).1);
                }
            }
        },
    }
}

pub(crate) proof fn lemma_literals_grow(items: Seq<Expr>, k: nat, sc: Scope)
    ensures
        grows(sc, literals_of(items, k, sc).1),
    decreases items.len() - k,
{
    lemma_grows_self(sc);
    if k < items.len() {
        lemma_literal_grows(items[k as int], sc);
        if let (Ok(_), sc1) = literal_of(items[k as int], sc) {
            lemma_literals_grow(items, k + 1, sc1);
            lemma_grows_trans(sc, sc1, literals_of(items, k + 1, sc1).1);
        }
    }
}

/// Where numbers suffice for what is known after more clauses, they suffice
/// before.
pub(crate) proof fn lemma_clauses_grow(forms: Seq<Expr>, k: nat, kn: Known)
    ensures
        clauses_of(forms, k, kn).1.in_range() ==> kn.in_range(),
    decreases forms.len() - k,
{
    if k < forms.len() {
        let (r, kn1) = clause_of(forms[k as int], kn);
        if let Expr::List(_, items) = forms[k as int] {
            lemma_literals_grow(items, 1, kn.scope());
        }
        if r is Ok {
            lemma_clauses_grow(forms, k + 1, kn1);
        }
        if kn1.in_range() {
            lemma_grows_self(kn.scope());
            if numbered(kn1.forest) && kn.forest.is_prefix_of(kn1.forest) {
                lemma_numbered_prefix(kn.forest, kn1.forest);
            }
        }
    }
}

/// At most `c` symbols and terms and `p` arguments are new.
pub(crate) open spec fn adds(a: Scope, b: Scope, c: int, p: int) -> bool {
    &&& b.names.len() <= a.names.len() + c
    &&& b.forest.len() <= a.forest.len() + c
    &&& arities(b.forest) <= arities(a.forest) + p
}

proof fn lemma_term_adds(x: Expr, sc: Scope)
    ensures
        adds(sc, term_of(x, sc).1, x.count() as int, x.count() - 1),
    decreases x, 0int,
{
    match x {
        Expr::Atom(_, name) => {
            lemma_interned_prefix(sc.names, name);
            lemma_with_tree(sc.forest, Tree::Var(id_in(sc.vars, name)));
            lemma_with_tree(sc.forest, Tree::App(id_in(sc.names, name), Seq::empty()));
        },
        Expr::List(_, items) => {
            if items.len() > 0 {
                lemma_counts_monotonic(items, 1, items.len());
                assert(counts(items, 1) == counts(items, 0) + items[0].count());
                if let Expr::Atom(_, head) = items[0] {
                    let sc1 = sc.with_name(head);
                    lemma_interned_prefix(sc.names, head);
                    lemma_terms_add(items, 1, sc1);
                    lemma_terms_size(items, 1, sc1);
                    if let (Ok(ts), sc2) = terms_of(items, 1, sc1) {
                        lemma_with_tree(sc2.forest, Tree::App(id_in(sc.names, head), ts));
                    }
                }
            }
        },
    }
}

proof fn lemma_terms_add(items: Seq<Expr>, k: nat, sc: Scope)
    requires
        k <= items.len(),
    ensures
        ({
            let c = counts(items, items.len()) - counts(items, k);
            let (r, sc1) = terms_of(items, k, sc);
            &&& adds(sc, sc1, c, c)
            &&& r is Ok ==> adds(sc, sc1, c, c - (items.len() - k))
        }),
    decreases items, items.len() - k,
{
    lemma_counts_monotonic(items, k, items.len());
    if k < items.len() {
        lemma_counts_monotonic(items, k + 1, items.len());
        lemma_term_adds(items[k as int], sc);
        if let (Ok(_), sc1) = term_of(items[k as int], sc) {
            lemma_terms_add(items, k + 1, sc1);
        }
    }
}

proof fn lemma_literal_adds(x: Expr, sc: Scope)
    ensures
        adds(sc, literal_of(x, sc).1, x.count() as int, x.count() as int),
{
    let inner = if is_negation(x) && x->List_1.len() == 2 {
        let items = x->List_1;
        assert(counts(items, 1) == counts(items, 0) + items[0].count());
        assert(counts(items, 2) == counts(items, 1) + items[1].count());
        items[1]
    } else {
        x
    };
    assert(inner.count() <= x.count());
    match inner {
        Expr::Atom(_, name) => {
            lemma_interned_prefix(sc.names, name);
        },
        Expr::List(_, items) => {
            if items.len() > 0 {
                lemma_counts_monotonic(items, 1, items.len());
                assert(counts(items, 1) == counts(items, 0) + items[0].count());
                if let Expr::Atom(_, head) = items[0] {
                    lemma_interned_prefix(sc.names, head);
                    lemma_terms_add(items, 1, sc.with_name(head));
                }
            }
        },
    }
}

proof fn lemma_literals_add(items: Seq<Expr>, k: nat, sc: Scope)
    requires
        k <= items.len(),
    ensures
        ({
            let c = counts(items, items.len()) - counts(items, k);
            adds(sc, literals_of(items, k, sc).1, c, c)
        }),
    decreases items.len() - k,
{
    lemma_counts_monotonic(items, k, items.len());
    if k < items.len() {
        lemma_counts_monotonic(items, k + 1, items.len());
        lemma_literal_adds(items[k as int], sc);
        if let (Ok(_), sc1) = literal_of(items[k as int], sc) {
            lemma_literals_add(items, k + 1, sc1);
        }
    }
}

proof fn lemma_clauses_add(forms: Seq<Expr>, k: nat, kn: Known)
    requires
        k <= forms.len(),
    ensures
        ({
            let c = counts(forms, forms.len()) - counts(forms, k);
            adds(kn.scope(), clauses_of(forms, k, kn).1.scope(), c, c)
        }),
    decreases forms.len() - k,
{
    lemma_counts_monotonic(forms, k, forms.len());
    if k < forms.len() {
        lemma_counts_monotonic(forms, k + 1, forms.len());
        if let Expr::List(_, items) = forms[k as int] {
            if items.len() > 0 {
                lemma_counts_monotonic(items, 1, items.len());
                lemma_literals_add(items, 1, kn.scope());
            }
        }
        let n = forms[k as int].count() as int;
        assert(counts(forms, k + 1) == counts(forms, k) + n);
        assert(adds(kn.scope(), clause_of(forms[k as int], kn).1.scope(), n, n));
        if let (Ok(_), kn1) = clause_of(forms[k as int], kn) {
            lemma_clauses_add(forms, k + 1, kn1);
        }
    }
}

/// A text that is short enough can be read: no more symbols, terms and
/// arguments are new than it has characters.
pub proof fn short_texts_can_be_read(text: Seq<char>, kn: Known)
    requires
        kn.names.len() + text.len() <= u32::MAX,
        kn.forest.len() + text.len() <= u32::MAX,
        arities(kn.forest) + text.len() <= u32::MAX,
    ensures
        problem_of(text, kn).1.in_range(),
{
    let ts = tokens_from(text, 0, 1);
    lemma_tokens(text, 0, 1);
    lemma_exprs_at(ts, 0);
    if let Ok(forms) = exprs_at(ts, 0) {
        lemma_clauses_add(forms, 0, kn);
    }
}

// ---------------------------------------------------------------------------
// Building terms.
// ---------------------------------------------------------------------------
pub(crate) fn variable_error(line: usize, name: &String, what: &str) -> (r: ParseError)
    ensures
        r@ == error_at(line as nat, variable_message(name@, what@)),
{
    let mut message = String::new();
    message.append("'");
    message.append(name.as_str());
    message.append("' diawali huruf besar (dianggap variable), tidak bisa dipakai sebagai nama ");
    message.append(what);
    assert(message@ =~= variable_message(name@, what@));
    ParseError { line, message }
}

/// What two symbol tables and an arena hold.
pub(crate) open spec fn scope(
    symbols: &SymbolTable,
    vars: &SymbolTable,
    arena: &TermArena,
) -> Scope {
    Scope { names: symbols@, vars: vars@, forest: arena.forest() }
}

/// Builds the term that an expression stands for.
#[verifier::rlimit(30)]
fn parse_term(
    e: &Sexpr,
    arena: &mut TermArena,
    symbols: &mut SymbolTable,
    vars: &mut SymbolTable,
) -> (r: Result<TermId, ParseError>)
    requires
        old(arena).wf(),
        old(symbols).wf(),
        old(vars).wf(),
        term_of(expr(*e), scope(old(symbols), old(vars), old(arena))).1.in_range(),
    ensures
        final(arena).wf(),
        final(symbols).wf(),
        final(vars).wf(),
        final(arena).extends(old(arena)),
        ({
            let (out, sc) = term_of(expr(*e), scope(old(symbols), old(vars), old(arena)));
            &&& final(symbols)@ == sc.names
            &&& final(vars)@ == sc.vars
            &&& final(arena).forest() == sc.forest
            &&& match r {
                Ok(id) => final(arena).valid(id) && out == Ok::<Tree, ErrorView>(
                    final(arena).tree(id),
                ),
                Err(er) => out == Err::<Tree, ErrorView>(er@),
            }
        }),
    decreases expr(*e), 0int,
{
    proof {
        lemma_expr_list(*e);
    }
    match &e.kind {
        SexprKind::Atom(name) => {
            if is_variable_name(name.as_str()) {
                let id: VarId = intern_in(vars, name.as_str());
                proof {
                    arena.lemma_room_for_var(id);
                }
                Ok(arena.mk_var(id))
            } else {
                let sym: SymbolId = intern_in(symbols, name.as_str());
                proof {
                    assert(arena.trees(Seq::empty()) =~= Seq::<Tree>::empty());
                    arena.lemma_room_for_app(sym, Seq::empty());
                }
                Ok(arena.mk_const(sym))
            }
        },
        SexprKind::List(items) => {
            let ghost xs = exprs(items@);
            if items.len() == 0 {
                return Err(ParseError::new(e.line, "'()' bukan term yang valid"));
            }
            proof {
                assert(xs[0] == expr(items@[0]));
                lemma_expr_list(items@[0]);
                lemma_counts_monotonic(xs, 1, xs.len());
                assert(counts(xs, 1) == counts(xs, 0) + xs[0].count());
            }
            match &items[0].kind {
                SexprKind::List(_) => Err(
                    ParseError::new(
                        items[0].line,
                        "kepala function application harus simbol, bukan list",
                    ),
                ),
                SexprKind::Atom(head) => {
                    if is_variable_name(head.as_str()) {
                        return Err(variable_error(items[0].line, head, "function"));
                    }
                    proof {
                        let sc = scope(symbols, vars, arena);
                        let sc1 = sc.with_name(head@);
                        let (out, sc2) = terms_of(xs, 1, sc1);
                        lemma_terms_grow(xs, 1, sc1);
                        if let Ok(ts) = out {
                            let t = Tree::App(id_in(sc.names, head@), ts);
                            lemma_built_grows(sc2, t);
                            lemma_in_range_before(sc2, sc2.built(t));
                        }
                        lemma_in_range_before(sc1, sc2);
                    }
                    let sym: SymbolId = intern_in(symbols, head.as_str());
                    match parse_args(items, arena, symbols, vars) {
                        Ok(args) => {
                            proof {
                                arena.lemma_room_for_app(sym, args@);
                            }
                            let id: TermId = arena.mk_app(sym, args.as_slice());
                            Ok(id)
                        },
                        Err(er) => Err(er),
                    }
                },
            }
        },
    }
}

/// Builds the terms that the expressions of a list after the first stand for.
fn parse_args(
    items: &Vec<Sexpr>,
    arena: &mut TermArena,
    symbols: &mut SymbolTable,
    vars: &mut SymbolTable,
) -> (r: Result<Vec<TermId>, ParseError>)
    requires
        items@.len() > 0,
        old(arena).wf(),
        old(symbols).wf(),
        old(vars).wf(),
        terms_of(exprs(items@), 1, scope(old(symbols), old(vars), old(arena))).1.in_range(),
    ensures
        final(arena).wf(),
        final(symbols).wf(),
        final(vars).wf(),
        final(arena).extends(old(arena)),
        ({
            let (out, sc) = terms_of(
                exprs(items@),
                1,
                scope(old(symbols), old(vars), old(arena)),
            );
            &&& final(symbols)@ == sc.names
            &&& final(vars)@ == sc.vars
            &&& final(arena).forest() == sc.forest
            &&& match r {
                Ok(ids) => {
                    &&& final(arena).all_valid(ids@)
                    &&& out == Ok::<Seq<Tree>, ErrorView>(final(arena).trees(ids@))
                    &&& ids@.len() == items@.len() - 1
                },
                Err(er) => out == Err::<Seq<Tree>, ErrorView>(er@),
            }
        }),
    decreases exprs(items@), 0int,
{
    let ghost xs = exprs(items@);
    let ghost goal = terms_of(xs, 1, scope(symbols, vars, arena));
    let mut ids: Vec<TermId> = Vec::new();
    let mut i: usize = 1;
    proof {
        if let (Ok(ts), _) = goal {
            assert(arena.trees(ids@) + ts =~= ts);
        }
    }
    while i < items.len()
        invariant
            old(arena).wf(),
            arena.wf(),
            symbols.wf(),
            vars.wf(),
            arena.extends(old(arena)),
            xs == exprs(items@),
            goal == terms_of(xs, 1, scope(old(symbols), old(vars), old(arena))),
            goal.1.in_range(),
            1 <= i <= items@.len(),
            ids@.len() == i - 1,
            arena.all_valid(ids@),
            match terms_of(xs, i as nat, scope(symbols, vars, arena)) {
                (Ok(ts), sc) => goal == (
                    Ok::<Seq<Tree>, ErrorView>(arena.trees(ids@) + ts),
                    sc,
                ),
                (Err(er), sc) => goal == (Err::<Seq<Tree>, ErrorView>(er), sc),
            },
        decreases items@.len() - i,
    {
        let ghost before = *arena;
        let ghost done = arena.trees(ids@);
        proof {
            assert(xs[i as int] == expr(items@[i as int]));
            let sc = scope(symbols, vars, arena);
            let (out, sc1) = term_of(xs[i as int], sc);
            if out is Ok {
                lemma_terms_grow(xs, (i + 1) as nat, sc1);
                lemma_in_range_before(sc1, terms_of(xs, (i + 1) as nat, sc1).1);
            }
            assert(decreases_to!(xs => xs[i as int]));
        }
        match parse_term(&items[i], arena, symbols, vars) {
            Ok(id) => {
                let ghost t = arena.tree(id);
                proof {
                    arena.lemma_extends_trees(&before, ids@);
                    assert(arena.extends(old(arena)));
                    assert(arena.trees(ids@.push(id)) =~= done.push(t));
                    if let (Ok(ts), _) = terms_of(
                        xs,
                        (i + 1) as nat,
                        scope(symbols, vars, arena),
                    ) {
                        assert(done + (seq![t] + ts) =~= done.push(t) + ts);
                    }
                }
                ids.push(id);
            },
            Err(er) => {
                assert(arena.extends(old(arena)));
                return Err(er);
            },
        }
        i += 1;
    }
    assert(arena.trees(ids@) + Seq::empty() =~= arena.trees(ids@));
    Ok(ids)
}

/// Builds the predicate and the arguments that an expression stands for.
#[verifier::rlimit(30)]
fn parse_predicate_app(
    e: &Sexpr,
    arena: &mut TermArena,
    symbols: &mut SymbolTable,
    vars: &mut SymbolTable,
) -> (r: Result<(SymbolId, Vec<TermId>), ParseError>)
    requires
        old(arena).wf(),
        old(symbols).wf(),
        old(vars).wf(),
        predicate_of(expr(*e), scope(old(symbols), old(vars), old(arena))).1.in_range(),
    ensures
        final(arena).wf(),
        final(symbols).wf(),
        final(vars).wf(),
        final(arena).extends(old(arena)),
        ({
            let (out, sc) = predicate_of(
                expr(*e),
                scope(old(symbols), old(vars), old(arena)),
            );
            &&& final(symbols)@ == sc.names
            &&& final(vars)@ == sc.vars
            &&& final(arena).forest() == sc.forest
            &&& match r {
                Ok((predicate, args)) => final(arena).all_valid(args@) && out == Ok::<
                    (SymbolId, Seq<Tree>),
                    ErrorView,
                >((predicate, final(arena).trees(args@))),
                Err(er) => out == Err::<(SymbolId, Seq<Tree>), ErrorView>(er@),
            }
        }),
{
    proof {
        lemma_expr_list(*e);
    }
    match &e.kind {
        SexprKind::Atom(name) => {
            if is_variable_name(name.as_str()) {
                return Err(variable_error(e.line, name, "predicate"));
            }
            let predicate: SymbolId = intern_in(symbols, name.as_str());
            let args: Vec<TermId> = Vec::new();
            assert(arena.trees(args@) =~= Seq::empty());
            Ok((predicate, args))
        },
        SexprKind::List(items) => {
            let ghost xs = exprs(items@);
            if items.len() == 0 {
                return Err(ParseError::new(e.line, "'()' bukan literal yang valid"));
            }
            proof {
                assert(xs[0] == expr(items@[0]));
                lemma_expr_list(items@[0]);
                lemma_counts_monotonic(xs, 1, xs.len());
                assert(counts(xs, 1) == counts(xs, 0) + xs[0].count());
            }
            match &items[0].kind {
                SexprKind::List(_) => Err(
                    ParseError::new(items[0].line, "kepala predicate harus simbol, bukan list"),
                ),
                SexprKind::Atom(head) => {
                    if is_variable_name(head.as_str()) {
                        return Err(variable_error(items[0].line, head, "predicate"));
                    }
                    proof {
                        let sc1 = scope(symbols, vars, arena).with_name(head@);
                        lemma_terms_grow(xs, 1, sc1);
                        lemma_in_range_before(sc1, terms_of(xs, 1, sc1).1);
                    }
                    let predicate: SymbolId = intern_in(symbols, head.as_str());
                    match parse_args(items, arena, symbols, vars) {
                        Ok(args) => Ok((predicate, args)),
                        Err(er) => Err(er),
                    }
                },
            }
        },
    }
}

/// Whether an expression is a list that starts with `not`.
fn negated(e: &Sexpr) -> (r: bool)
    ensures
        r == is_negation(expr(*e)),
{
    proof {
        lemma_expr_list(*e);
    }
    if let SexprKind::List(items) = &e.kind {
        if items.len() > 0 {
            proof {
                assert(exprs(items@)[0] == expr(items@[0]));
                lemma_expr_list(items@[0]);
            }
            if let SexprKind::Atom(head) = &items[0].kind {
                return is_word(head, "not");
            }
        }
    }
    false
}

/// Builds the literal that an expression stands for.
#[verifier::rlimit(30)]
fn parse_literal(
    e: &Sexpr,
    arena: &mut TermArena,
    symbols: &mut SymbolTable,
    vars: &mut SymbolTable,
) -> (r: Result<Literal, ParseError>)
    requires
        old(arena).wf(),
        old(symbols).wf(),
        old(vars).wf(),
        literal_of(expr(*e), scope(old(symbols), old(vars), old(arena))).1.in_range(),
    ensures
        final(arena).wf(),
        final(symbols).wf(),
        final(vars).wf(),
        final(arena).extends(old(arena)),
        ({
            let (out, sc) = literal_of(expr(*e), scope(old(symbols), old(vars), old(arena)));
            &&& final(symbols)@ == sc.names
            &&& final(vars)@ == sc.vars
            &&& final(arena).forest() == sc.forest
            &&& match r {
                Ok(l) => l@.valid(final(arena)) && out == Ok::<Lit, ErrorView>(
                    l@.lit(final(arena)),
                ),
                Err(er) => out == Err::<Lit, ErrorView>(er@),
            }
        }),
{
    if negated(e) {
        proof {
            lemma_expr_list(*e);
        }
        if let SexprKind::List(items) = &e.kind {
            let ghost xs = exprs(items@);
            if items.len() != 2 {
                return Err(
                    ParseError::new(e.line, "'not' butuh tepat 1 argumen: (not (pred arg...))"),
                );
            }
            proof {
                assert(xs[1] == expr(items@[1]));
                assert(counts(xs, 2) == counts(xs, 1) + xs[1].count());
            }
            match parse_predicate_app(&items[1], arena, symbols, vars) {
                Ok((predicate, args)) => {
                    return Ok(Literal::negative(predicate, args));
                },
                Err(er) => {
                    return Err(er);
                },
            }
        }
    }
    match parse_predicate_app(e, arena, symbols, vars) {
        Ok((predicate, args)) => Ok(Literal::positive(predicate, args)),
        Err(er) => Err(er),
    }
}

/// Builds the clause that an expression stands for.
#[verifier::rlimit(30)]
fn parse_clause(form: &Sexpr, arena: &mut TermArena, symbols: &mut SymbolTable) -> (r: Result<
    Vec<Literal>,
    ParseError,
>)
    requires
        old(arena).wf(),
        old(symbols).wf(),
        clause_of(expr(*form), known(old(symbols), old(arena))).1.in_range(),
    ensures
        final(arena).wf(),
        final(symbols).wf(),
        final(arena).extends(old(arena)),
        ({
            let (out, kn) = clause_of(expr(*form), known(old(symbols), old(arena)));
            &&& known(final(symbols), final(arena)) == kn
            &&& match r {
                Ok(ls) => lits_valid(views(ls@), final(arena)) && out == Ok::<Seq<Lit>, ErrorView>(
                    lits(views(ls@), final(arena)),
                ),
                Err(er) => out == Err::<Seq<Lit>, ErrorView>(er@),
            }
        }),
{
    proof {
        lemma_expr_list(*form);
    }
    let items = match &form.kind {
        SexprKind::List(items) => items,
        SexprKind::Atom(_) => {
            return Err(
                ParseError::new(
                    form.line,
                    "form top-level harus berbentuk (clause <literal>...), bukan atom lepas",
                ),
            );
        },
    };
    let ghost xs = exprs(items@);
    if items.len() == 0 {
        return Err(
            ParseError::new(form.line, "form top-level kosong, harus (clause <literal>...)"),
        );
    }
    proof {
        assert(xs[0] == expr(items@[0]));
        lemma_expr_list(items@[0]);
        assert(counts(xs, 1) == counts(xs, 0) + xs[0].count());
    }
    let is_clause: bool = match &items[0].kind {
        SexprKind::Atom(head) => is_word(head, "clause"),
        SexprKind::List(_) => false,
    };
    if !is_clause {
        return Err(
            ParseError::new(items[0].line, "form top-level harus diawali simbol 'clause'"),
        );
    }
    let mut vars = SymbolTable::new();
    let ghost goal = literals_of(xs, 1, scope(symbols, &vars, arena));
    let mut out: Vec<Literal> = Vec::new();
    let mut i: usize = 1;
    proof {
        lemma_literals_grow(xs, 1, scope(symbols, &vars, arena));
        lemma_vars_in_range(goal.1);
        assert(lits(views(out@), arena) =~= Seq::empty());
        if let (Ok(ls), _) = goal {
            assert(lits(views(out@), arena) + ls =~= ls);
        }
    }
    while i < items.len()
        invariant
            old(arena).wf(),
            arena.wf(),
            symbols.wf(),
            vars.wf(),
            arena.extends(old(arena)),
            xs == exprs(items@),
            expr(*form) == Expr::List(form.line as nat, xs),
            goal == literals_of(xs, 1, known(old(symbols), old(arena)).scope()),
            clause_of(expr(*form), known(old(symbols), old(arena))) == (goal.0, goal.1.known()),
            goal.1.in_range(),
            1 <= i <= items@.len(),
            lits_valid(views(out@), arena),
            match literals_of(xs, i as nat, scope(symbols, &vars, arena)) {
                (Ok(ls), sc) => goal == (
                    Ok::<Seq<Lit>, ErrorView>(lits(views(out@), arena) + ls),
                    sc,
                ),
                (Err(er), sc) => goal == (Err::<Seq<Lit>, ErrorView>(er), sc),
            },
        decreases items@.len() - i,
    {
        let ghost before = *arena;
        let ghost done = lits(views(out@), arena);
        proof {
            assert(xs[i as int] == expr(items@[i as int]));
            let sc = scope(symbols, &vars, arena);
            let (out1, sc1) = literal_of(xs[i as int], sc);
            if out1 is Ok {
                lemma_literals_grow(xs, (i + 1) as nat, sc1);
                lemma_in_range_before(sc1, literals_of(xs, (i + 1) as nat, sc1).1);
            }
        }
        match parse_literal(&items[i], arena, symbols, &mut vars) {
            Ok(l) => {
                let ghost t = l@.lit(arena);
                proof {
                    crate::clause::lemma_lits_extends(views(out@), &before, arena);
                    assert(arena.extends(old(arena)));
                    assert(views(out@.push(l)) =~= views(out@).push(l@));
                    assert(lits(views(out@).push(l@), arena) =~= done.push(t));
                    if let (Ok(ls), _) = literals_of(
                        xs,
                        (i + 1) as nat,
                        scope(symbols, &vars, arena),
                    ) {
                        assert(done + (seq![t] + ls) =~= done.push(t) + ls);
                    }
                }
                out.push(l);
            },
            Err(er) => {
                assert(arena.extends(old(arena)));
                return Err(er);
            },
        }
        i += 1;
    }
    assert(lits(views(out@), arena) + Seq::empty() =~= lits(views(out@), arena));
    Ok(out)
}

/// The literals of a list of clauses.
pub open spec fn clause_lits(cs: Seq<Vec<Literal>>, arena: &TermArena) -> Seq<Seq<Lit>> {
    Seq::new(cs.len(), |i: int| lits(views(cs[i]@), arena))
}

/// Whether all terms of the clauses are in the arena.
pub open spec fn clauses_valid(cs: Seq<Vec<Literal>>, arena: &TermArena) -> bool {
    forall|i: int| 0 <= i < cs.len() ==> lits_valid(views((#[trigger] cs[i])@), arena)
}

/// Clauses keep their literals when the arena grows.
pub(crate) proof fn lemma_clauses_extend(
    cs: Seq<Vec<Literal>>,
    older: &TermArena,
    newer: &TermArena,
)
    requires
        older.wf(),
        newer.extends(older),
        clauses_valid(cs, older),
    ensures
        clauses_valid(cs, newer),
        clause_lits(cs, newer) == clause_lits(cs, older),
{
    assert forall|i: int| 0 <= i < cs.len() implies lits_valid(
        views((#[trigger] cs[i])@),
        newer,
    ) && lits(views(cs[i]@), newer) == lits(views(cs[i]@), older) by {
        crate::clause::lemma_lits_extends(views(cs[i]@), older, newer);
    }
    assert(clause_lits(cs, newer) =~= clause_lits(cs, older));
}

/// Reads a problem. Terms are built in `arena`, and names are numbered in
/// `symbols`, also those before an error.
#[verifier::rlimit(30)]
pub fn parse_problem(input: &str, arena: &mut TermArena, symbols: &mut SymbolTable) -> (r: Result<
    Vec<Vec<Literal>>,
    ParseError,
>)
    requires
        old(arena).wf(),
        old(symbols).wf(),
        problem_of(input@, known(old(symbols), old(arena))).1.in_range(),
        input@.len() < usize::MAX,
    ensures
        final(arena).wf(),
        final(symbols).wf(),
        final(arena).extends(old(arena)),
        ({
            let (out, kn) = problem_of(input@, known(old(symbols), old(arena)));
            &&& known(final(symbols), final(arena)) == kn
            &&& match r {
                Ok(cs) => clauses_valid(cs@, final(arena)) && out == Ok::<
                    Seq<Seq<Lit>>,
                    ErrorView,
                >(clause_lits(cs@, final(arena))),
                Err(er) => out == Err::<Seq<Seq<Lit>>, ErrorView>(er@),
            }
        }),
{
    let chars: Vec<char> = chars_of(input);
    let tokens: Vec<(Token, usize)> = tokenize(&chars);
    let ghost ts = toks(tokens@);
    let forms: Vec<Sexpr> = match parse_all(&tokens) {
        Ok(forms) => forms,
        Err(er) => {
            return Err(er);
        },
    };
    let ghost xs = exprs(forms@);
    let ghost goal = clauses_of(xs, 0, known(symbols, arena));
    let mut cs: Vec<Vec<Literal>> = Vec::new();
    let mut i: usize = 0;
    proof {
        assert(clause_lits(cs@, arena) =~= Seq::empty());
        if let (Ok(all), _) = goal {
            assert(clause_lits(cs@, arena) + all =~= all);
        }
    }
    while i < forms.len()
        invariant
            old(arena).wf(),
            arena.wf(),
            symbols.wf(),
            arena.extends(old(arena)),
            xs == exprs(forms@),
            goal == clauses_of(xs, 0, known(old(symbols), old(arena))),
            problem_of(input@, known(old(symbols), old(arena))) == goal,
            goal.1.in_range(),
            i <= forms@.len(),
            clauses_valid(cs@, arena),
            match clauses_of(xs, i as nat, known(symbols, arena)) {
                (Ok(rest), kn) => goal == (
                    Ok::<Seq<Seq<Lit>>, ErrorView>(clause_lits(cs@, arena) + rest),
                    kn,
                ),
                (Err(er), kn) => goal == (Err::<Seq<Seq<Lit>>, ErrorView>(er), kn),
            },
        decreases forms@.len() - i,
    {
        let ghost before = *arena;
        let ghost done = clause_lits(cs@, arena);
        proof {
            assert(xs[i as int] == expr(forms@[i as int]));
            let (out, kn1) = clause_of(xs[i as int], known(symbols, arena));
            if out is Ok {
                lemma_clauses_grow(xs, (i + 1) as nat, kn1);
            }
        }
        match parse_clause(&forms[i], arena, symbols) {
            Ok(c) => {
                let ghost t = lits(views(c@), arena);
                proof {
                    lemma_clauses_extend(cs@, &before, arena);
                    assert(arena.extends(old(arena)));
                    assert(clause_lits(cs@.push(c), arena) =~= done.push(t));
                    if let (Ok(rest), _) = clauses_of(xs, (i + 1) as nat, known(symbols, arena)) {
                        assert(done + (seq![t] + rest) =~= done.push(t) + rest);
                    }
                }
                cs.push(c);
            },
            Err(er) => {
                assert(arena.extends(old(arena)));
                return Err(er);
            },
        }
        i += 1;
    }
    assert(clause_lits(cs@, arena) + Seq::empty() =~= clause_lits(cs@, arena));
    Ok(cs)
}

} // verus!
