//! Reads problems in the clause normal form of TPTP:
//!
//! ```text
//! % a comment runs to the end of the line
//! cnf(ax1, axiom, ~man(X) | mortal(X)).
//! cnf(ax2, axiom, man(socrates)).
//! cnf(goal, negated_conjecture, ~mortal(socrates)).
//! ```
//!
//! A formula is a literal or several with `|` between them, with or without
//! parentheses around them. A literal is `pred(arg, ...)` or `pred`, with `~`
//! before it where it is negative. Names and roles of statements are read and
//! dropped. Names that start with an upper-case letter or `_` are variables,
//! and belong to their statement. Equations are refused.
use crate::clause::{lits, lits_valid, views, weights, Lit, Literal};
use crate::forest::{
    arities, lemma_numbered_prefix, lemma_plant_cons, lemma_with_tree, plant, plant_list,
};
use crate::inference::plant_lits;
use crate::parser::{
    adds, breaks_from, clause_lits, clauses_valid, error_at, grows, id_in, intern_in, is_variable,
    is_variable_name, known, lemma_breaks_from, lemma_built_grows, lemma_clauses_extend,
    lemma_grows_self, lemma_grows_trans, lemma_in_range_before, lemma_line_end,
    lemma_plant_clauses_cons, lemma_plant_lits_cons, lemma_sizes_cons, lemma_var_grows,
    lemma_vars_in_range, lemma_weights_cons, lemma_with_name_grows, line_count, line_end,
    plant_clauses, scope, variable_error, variable_message, ErrorView, Known, ParseError, Scope,
};
use crate::term::{SymbolId, SymbolTable, TermArena, TermId, VarId};
use crate::text::{chars_of, debug_string, debug_text, is_word, text_between, white_space};
use crate::tree::{sizes, Tree};
use vstd::prelude::*;

verus! {

/// Punctuation.
#[derive(Debug, Clone, Copy, PartialEq, Eq, Structural)]
pub enum Mark {
    LParen,
    RParen,
    Comma,
    Dot,
    Pipe,
    Tilde,
    Equals,
    NotEquals,
}

#[derive(Debug)]
enum Token {
    Punct(Mark),
    Ident(String),
}

/// A token: punctuation or a name.
#[verifier::ext_equal]
pub enum Tok {
    Punct(Mark),
    Ident(Seq<char>),
}

spec fn tok(t: Token) -> Tok {
    match t {
        Token::Punct(m) => Tok::Punct(m),
        Token::Ident(s) => Tok::Ident(s@),
    }
}

spec fn toks(ts: Seq<(Token, usize)>) -> Seq<(Tok, nat)> {
    Seq::new(ts.len(), |i: int| (tok(ts[i].0), ts[i].1 as nat))
}

/// The punctuation that a single character is.
pub open spec fn mark_of(c: char) -> Option<Mark> {
    if c == '(' {
        Some(Mark::LParen)
    } else if c == ')' {
        Some(Mark::RParen)
    } else if c == ',' {
        Some(Mark::Comma)
    } else if c == '.' {
        Some(Mark::Dot)
    } else if c == '|' {
        Some(Mark::Pipe)
    } else if c == '~' {
        Some(Mark::Tilde)
    } else if c == '=' {
        Some(Mark::Equals)
    } else {
        None
    }
}

fn mark_at(c: char) -> (r: Option<Mark>)
    ensures
        r == mark_of(c),
{
    if c == '(' {
        Some(Mark::LParen)
    } else if c == ')' {
        Some(Mark::RParen)
    } else if c == ',' {
        Some(Mark::Comma)
    } else if c == '.' {
        Some(Mark::Dot)
    } else if c == '|' {
        Some(Mark::Pipe)
    } else if c == '~' {
        Some(Mark::Tilde)
    } else if c == '=' {
        Some(Mark::Equals)
    } else {
        None
    }
}

/// Whether a character ends a name.
pub open spec fn ends_ident(c: char) -> bool {
    white_space(c) || mark_of(c) is Some || c == '!' || c == '\'' || c == '%'
}

/// Whether a block comment begins at `i`.
pub open spec fn comment_begins(s: Seq<char>, i: nat) -> bool {
    i + 1 < s.len() && s[i as int] == '/' && s[(i + 1) as int] == '*'
}

/// The position of the next character from `i` on that ends a name, or of the
/// next block comment, or the end.
pub open spec fn ident_end(s: Seq<char>, i: nat) -> nat
    decreases s.len() - i,
{
    if i >= s.len() || ends_ident(s[i as int]) || comment_begins(s, i) {
        i
    } else {
        ident_end(s, i + 1)
    }
}

/// The position of the next quote or line break from `i` on, or the end.
pub open spec fn quote_end(s: Seq<char>, i: nat) -> nat
    decreases s.len() - i,
{
    if i >= s.len() || s[i as int] == '\'' || s[i as int] == '\n' {
        i
    } else {
        quote_end(s, i + 1)
    }
}

/// The position after the next `*/` from `i` on.
pub open spec fn comment_end(s: Seq<char>, i: nat) -> Option<nat>
    decreases s.len() - i,
{
    if i >= s.len() {
        None
    } else if s[i as int] == '*' && i + 1 < s.len() && s[(i + 1) as int] == '/' {
        Some(i + 2)
    } else {
        comment_end(s, i + 1)
    }
}

/// Number of line breaks from `i` up to `j`.
pub open spec fn breaks(s: Seq<char>, i: nat, j: nat) -> nat
    decreases j - i,
{
    if i >= j {
        0
    } else {
        breaks(s, i + 1, j) + (if s[i as int] == '\n' {
            1nat
        } else {
            0nat
        })
    }
}

/// Names end at or after their start.
pub proof fn lemma_ident_end(s: Seq<char>, i: nat)
    requires
        i <= s.len(),
    ensures
        i <= ident_end(s, i) <= s.len(),
    decreases s.len() - i,
{
    if i < s.len() && !ends_ident(s[i as int]) && !comment_begins(s, i) {
        lemma_ident_end(s, i + 1);
    }
}

/// Quoted names end at or after their start.
pub proof fn lemma_quote_end(s: Seq<char>, i: nat)
    requires
        i <= s.len(),
    ensures
        i <= quote_end(s, i) <= s.len(),
        quote_end(s, i) < s.len() ==> s[quote_end(s, i) as int] == '\'' || s[quote_end(
            s,
            i,
        ) as int] == '\n',
    decreases s.len() - i,
{
    if i < s.len() && s[i as int] != '\'' && s[i as int] != '\n' {
        lemma_quote_end(s, i + 1);
    }
}

/// Comments end after their start.
pub proof fn lemma_comment_end(s: Seq<char>, i: nat)
    ensures
        comment_end(s, i) matches Some(e) ==> i < e <= s.len(),
    decreases s.len() - i,
{
    if i < s.len() {
        lemma_comment_end(s, i + 1);
    }
}

/// One more token in front of the rest.
pub open spec fn cons(t: (Tok, nat), rest: Result<Seq<(Tok, nat)>, ErrorView>) -> Result<
    Seq<(Tok, nat)>,
    ErrorView,
> {
    match rest {
        Ok(ts) => Ok(seq![t] + ts),
        Err(e) => Err(e),
    }
}

/// The tokens of the text from position `i` on, each with its line, where the
/// text at `i` is in the given line; or the first error.
pub open spec fn scan(s: Seq<char>, i: nat, line: nat) -> Result<Seq<(Tok, nat)>, ErrorView>
    decreases s.len() - i,
{
    if i >= s.len() {
        Ok(Seq::empty())
    } else {
        let c = s[i as int];
        if c == ' ' || c == '\t' || c == '\r' {
            scan(s, i + 1, line)
        } else if c == '\n' {
            scan(s, i + 1, line + 1)
        } else if c == '%' {
            proof {
                lemma_line_end(s, i + 1);
            }
            scan(s, line_end(s, i + 1), line)
        } else if c == '/' {
            if i + 1 < s.len() && s[(i + 1) as int] == '*' {
                proof {
                    lemma_comment_end(s, i + 2);
                }
                match comment_end(s, i + 2) {
                    Some(e) => scan(s, e, line + breaks(s, i + 2, e)),
                    None => Err(error_at(line, "block comment '/*' doesn't close with '*/'"@)),
                }
            } else {
                Err(error_at(line, "'/' unexpected out of scope"@))
            }
        } else if mark_of(c) is Some {
            cons((Tok::Punct(mark_of(c)->Some_0), line), scan(s, i + 1, line))
        } else if c == '!' {
            if i + 1 < s.len() && s[(i + 1) as int] == '=' {
                cons((Tok::Punct(Mark::NotEquals), line), scan(s, i + 2, line))
            } else {
                Err(error_at(line, "'!' unexpected (only known part of '!=')"@))
            }
        } else if c == '\'' {
            let e = quote_end(s, i + 1);
            proof {
                lemma_quote_end(s, i + 1);
            }
            if e >= s.len() {
                Err(error_at(line, "tanda kutip tunggal tidak ditutup sebelum EOF"@))
            } else if s[e as int] == '\n' {
                Err(error_at(line, "tanda kutip tunggal tidak ditutup sebelum akhir baris"@))
            } else {
                cons((Tok::Ident(s.subrange((i + 1) as int, e as int)), line), scan(s, e + 1, line))
            }
        } else if white_space(c) {
            Err(error_at(line, "karakter tidak dikenal: '"@ + seq![c] + "'"@))
        } else {
            let e = ident_end(s, i + 1);
            proof {
                lemma_ident_end(s, i + 1);
            }
            cons((Tok::Ident(s.subrange(i as int, e as int)), line), scan(s, e, line))
        }
    }
}

/// There are at most as many tokens as characters.
proof fn lemma_scan(s: Seq<char>, i: nat, line: nat)
    requires
        i <= s.len(),
    ensures
        scan(s, i, line) matches Ok(ts) ==> ts.len() <= s.len() - i,
    decreases s.len() - i,
{
    if i < s.len() {
        let c = s[i as int];
        if c == ' ' || c == '\t' || c == '\r' {
            lemma_scan(s, i + 1, line);
        } else if c == '\n' {
            lemma_scan(s, i + 1, line + 1);
        } else if c == '%' {
            lemma_line_end(s, i + 1);
            lemma_scan(s, line_end(s, i + 1), line);
        } else if c == '/' {
            lemma_comment_end(s, i + 2);
            if let Some(e) = comment_end(s, i + 2) {
                lemma_scan(s, e, line + breaks(s, i + 2, e));
            }
        } else if mark_of(c) is Some {
            lemma_scan(s, i + 1, line);
        } else if c == '!' {
            if i + 1 < s.len() {
                lemma_scan(s, i + 2, line);
            }
        } else if c == '\'' {
            let e = quote_end(s, i + 1);
            lemma_quote_end(s, i + 1);
            if e < s.len() {
                lemma_scan(s, e + 1, line);
            }
        } else if !white_space(c) {
            lemma_ident_end(s, i + 1);
            lemma_scan(s, ident_end(s, i + 1), line);
        }
    }
}

/// What was read, and what the rest of the text gives.
spec fn joined(done: Seq<(Tok, nat)>, rest: Result<Seq<(Tok, nat)>, ErrorView>) -> Result<
    Seq<(Tok, nat)>,
    ErrorView,
> {
    match rest {
        Ok(ts) => Ok(done + ts),
        Err(e) => Err(e),
    }
}

proof fn lemma_joined_push(
    done: Seq<(Tok, nat)>,
    t: (Tok, nat),
    rest: Result<Seq<(Tok, nat)>, ErrorView>,
)
    ensures
        joined(done.push(t), rest) == joined(done, cons(t, rest)),
{
    if let Ok(ts) = rest {
        assert(done.push(t) + ts =~= done + (seq![t] + ts));
    }
}

/// Skips a block comment whose text starts at `start`: the position after it
/// and the number of line breaks in it.
fn skip_comment(chars: &Vec<char>, start: usize) -> (r: Option<(usize, usize)>)
    requires
        start <= chars@.len() < usize::MAX,
    ensures
        match r {
            Some((end, n)) => comment_end(chars@, start as nat) == Some(end as nat) && n == breaks(
                chars@,
                start as nat,
                end as nat,
            ) && start + n <= end <= chars@.len(),
            None => comment_end(chars@, start as nat) is None,
        },
{
    let ghost s = chars@;
    let mut i: usize = start;
    let mut n: usize = 0;
    while i < chars.len()
        invariant
            s == chars@,
            s.len() < usize::MAX,
            start <= i <= s.len(),
            comment_end(s, i as nat) == comment_end(s, start as nat),
            n <= i - start,
            n == breaks(s, start as nat, i as nat),
        decreases s.len() - i,
    {
        if chars[i] == '*' && i + 1 < chars.len() && chars[i + 1] == '/' {
            proof {
                lemma_breaks_push(s, start as nat, i as nat);
                lemma_breaks_push(s, start as nat, (i + 1) as nat);
            }
            return Some((i + 2, n));
        }
        proof {
            lemma_breaks_push(s, start as nat, i as nat);
        }
        if chars[i] == '\n' {
            n += 1;
        }
        i += 1;
    }
    None
}

proof fn lemma_breaks_push(s: Seq<char>, i: nat, j: nat)
    requires
        i <= j,
    ensures
        breaks(s, i, j + 1) == breaks(s, i, j) + (if s[j as int] == '\n' {
            1nat
        } else {
            0nat
        }),
    decreases j - i,
{
    if i < j {
        lemma_breaks_push(s, i + 1, j);
    } else {
        assert(breaks(s, j + 1, j + 1) == 0);
    }
}

/// Splits the text into tokens.
#[verifier::rlimit(40)]
fn tokenize(chars: &Vec<char>) -> (r: Result<Vec<(Token, usize)>, ParseError>)
    requires
        chars@.len() < usize::MAX,
    ensures
        match r {
            Ok(ts) => scan(chars@, 0, 1) == Ok::<Seq<(Tok, nat)>, ErrorView>(toks(ts@)),
            Err(e) => scan(chars@, 0, 1) == Err::<Seq<(Tok, nat)>, ErrorView>(e@),
        },
{
    let ghost s = chars@;
    let mut tokens: Vec<(Token, usize)> = Vec::new();
    let mut line: usize = 1;
    let mut i: usize = 0;
    proof {
        if let Ok(ts) = scan(s, 0, 1) {
            assert(toks(tokens@) + ts =~= ts);
        }
    }
    while i < chars.len()
        invariant
            s == chars@,
            s.len() < usize::MAX,
            i <= s.len(),
            1 <= line <= i + 1,
            joined(toks(tokens@), scan(s, i as nat, line as nat)) == scan(s, 0, 1),
        decreases s.len() - i,
    {
        let c: char = chars[i];
        let ghost before = toks(tokens@);
        if c == ' ' || c == '\t' || c == '\r' {
            i += 1;
        } else if c == '\n' {
            i += 1;
            line += 1;
        } else if c == '%' {
            let ghost start = i;
            i += 1;
            while i < chars.len() && chars[i] != '\n'
                invariant
                    s == chars@,
                    start < i <= s.len(),
                    line_end(s, i as nat) == line_end(s, (start + 1) as nat),
                decreases s.len() - i,
            {
                i += 1;
            }
        } else if c == '/' {
            if i + 1 < chars.len() && chars[i + 1] == '*' {
                match skip_comment(chars, i + 2) {
                    Some((end, n)) => {
                        proof {
                            lemma_comment_end(s, (i + 2) as nat);
                        }
                        i = end;
                        line += n;
                    },
                    None => {
                        return Err(
                            ParseError::new(line, "block comment '/*' doesn't close with '*/'"),
                        );
                    },
                }
            } else {
                return Err(ParseError::new(line, "'/' unexpected out of scope"));
            }
        } else if let Some(m) = mark_at(c) {
            let ghost entry = (Tok::Punct(m), line as nat);
            tokens.push((Token::Punct(m), line));
            i += 1;
            proof {
                assert(toks(tokens@) =~= before.push(entry));
                lemma_joined_push(before, entry, scan(s, i as nat, line as nat));
            }
        } else if c == '!' {
            if i + 1 < chars.len() && chars[i + 1] == '=' {
                let ghost entry = (Tok::Punct(Mark::NotEquals), line as nat);
                tokens.push((Token::Punct(Mark::NotEquals), line));
                i += 2;
                proof {
                    assert(toks(tokens@) =~= before.push(entry));
                    lemma_joined_push(before, entry, scan(s, i as nat, line as nat));
                }
            } else {
                return Err(ParseError::new(line, "'!' unexpected (only known part of '!=')"));
            }
        } else if c == '\'' {
            let start: usize = i + 1;
            i += 1;
            while i < chars.len() && chars[i] != '\'' && chars[i] != '\n'
                invariant
                    s == chars@,
                    start <= i <= s.len(),
                    quote_end(s, i as nat) == quote_end(s, start as nat),
                decreases s.len() - i,
            {
                i += 1;
            }
            if i >= chars.len() {
                return Err(
                    ParseError::new(line, "tanda kutip tunggal tidak ditutup sebelum EOF"),
                );
            }
            if chars[i] == '\n' {
                return Err(
                    ParseError::new(line, "tanda kutip tunggal tidak ditutup sebelum akhir baris"),
                );
            }
            let name: String = text_between(chars, start, i);
            let ghost entry = (Tok::Ident(name@), line as nat);
            tokens.push((Token::Ident(name), line));
            i += 1;
            proof {
                assert(toks(tokens@) =~= before.push(entry));
                lemma_joined_push(before, entry, scan(s, i as nat, line as nat));
            }
        } else if c.is_whitespace() {
            let mut message = String::new();
            message.append("karakter tidak dikenal: '");
            message.push(c);
            message.append("'");
            assert(message@ =~= "karakter tidak dikenal: '"@ + seq![c] + "'"@);
            return Err(ParseError { line, message });
        } else {
            let start: usize = i;
            i += 1;
            while i < chars.len() && !(chars[i].is_whitespace() || mark_at(chars[i]).is_some()
                || chars[i] == '!' || chars[i] == '\'' || chars[i] == '%' || (chars[i] == '/' && i
                + 1 < chars.len() && chars[i + 1] == '*'))
                invariant
                    s == chars@,
                    start < i <= s.len(),
                    s.len() < usize::MAX,
                    ident_end(s, i as nat) == ident_end(s, (start + 1) as nat),
                decreases s.len() - i,
            {
                i += 1;
            }
            let name: String = text_between(chars, start, i);
            let ghost entry = (Tok::Ident(name@), line as nat);
            tokens.push((Token::Ident(name), line));
            proof {
                assert(toks(tokens@) =~= before.push(entry));
                lemma_joined_push(before, entry, scan(s, i as nat, line as nat));
            }
        }
    }
    assert(toks(tokens@) + Seq::empty() =~= toks(tokens@));
    Ok(tokens)
}

// ---------------------------------------------------------------------------
// The grammar.
// ---------------------------------------------------------------------------
/// The name of a punctuation mark in messages.
pub open spec fn mark_text(m: Mark) -> Seq<char> {
    match m {
        Mark::LParen => "LParen"@,
        Mark::RParen => "RParen"@,
        Mark::Comma => "Comma"@,
        Mark::Dot => "Dot"@,
        Mark::Pipe => "Pipe"@,
        Mark::Tilde => "Tilde"@,
        Mark::Equals => "Equals"@,
        Mark::NotEquals => "NotEquals"@,
    }
}

/// A token in messages.
pub open spec fn tok_text(t: Tok) -> Seq<char> {
    match t {
        Tok::Punct(m) => mark_text(m),
        Tok::Ident(name) => "Ident("@ + debug_text(name) + ")"@,
    }
}

/// The line of the token at `pos`; past the end, that of the last token, and 0
/// where there is none.
pub open spec fn line_at(ts: Seq<(Tok, nat)>, pos: nat) -> nat {
    if pos < ts.len() {
        ts[pos as int].1
    } else if ts.len() > 0 {
        ts.last().1
    } else {
        0
    }
}

/// Whether the token at `pos` is this mark.
pub open spec fn is_mark(ts: Seq<(Tok, nat)>, pos: nat, m: Mark) -> bool {
    pos < ts.len() && ts[pos as int].0 == Tok::Punct(m)
}

/// The error where `what` was expected at `pos`.
pub open spec fn unexpected(ts: Seq<(Tok, nat)>, pos: nat, what: Seq<char>) -> ErrorView {
    if pos < ts.len() {
        error_at(
            ts[pos as int].1,
            "diharapkan "@ + what + ", ditemukan "@ + tok_text(ts[pos as int].0),
        )
    } else {
        error_at(line_at(ts, pos), "diharapkan "@ + what + ", tapi EOF"@)
    }
}

/// The position after the mark that has to stand at `pos`.
pub open spec fn expect_at(ts: Seq<(Tok, nat)>, pos: nat, m: Mark, what: Seq<char>) -> Result<
    nat,
    ErrorView,
> {
    if is_mark(ts, pos, m) {
        Ok(pos + 1)
    } else {
        Err(unexpected(ts, pos, what))
    }
}

/// The name that has to stand at `pos`.
pub open spec fn name_at(ts: Seq<(Tok, nat)>, pos: nat, what: Seq<char>) -> Result<
    Seq<char>,
    ErrorView,
> {
    if pos < ts.len() && ts[pos as int].0 is Ident {
        Ok(ts[pos as int].0->Ident_0)
    } else {
        Err(unexpected(ts, pos, what))
    }
}

/// The term at `pos` and the position after it, and what is known then. The
/// symbol of an application is numbered after its arguments.
pub open spec fn term_at(ts: Seq<(Tok, nat)>, pos: nat, sc: Scope) -> (
    Result<(Tree, nat), ErrorView>,
    Scope,
)
    decreases ts.len() - pos, 0nat,
{
    match name_at(ts, pos, "nama term"@) {
        Err(e) => (Err(e), sc),
        Ok(name) => if is_variable(name) {
            (
                Ok((Tree::Var(id_in(sc.vars, name)), pos + 1)),
                sc.with_var(name).built(Tree::Var(id_in(sc.vars, name))),
            )
        } else if is_mark(ts, pos + 1, Mark::LParen) {
            match args_at(ts, pos + 2, sc) {
                (Err(e), sc1) => (Err(e), sc1),
                (Ok((args, p)), sc1) => match expect_at(
                    ts,
                    p,
                    Mark::RParen,
                    "')' penutup argumen term"@,
                ) {
                    Err(e) => (Err(e), sc1),
                    Ok(end) => (
                        Ok((Tree::App(id_in(sc1.names, name), args), end)),
                        sc1.with_name(name).built(Tree::App(id_in(sc1.names, name), args)),
                    ),
                },
            }
        } else {
            (
                Ok((Tree::App(id_in(sc.names, name), Seq::empty()), pos + 1)),
                sc.with_name(name).built(Tree::App(id_in(sc.names, name), Seq::empty())),
            )
        },
    }
}

/// The terms from `pos` on with commas between them.
pub open spec fn args_at(ts: Seq<(Tok, nat)>, pos: nat, sc: Scope) -> (
    Result<(Seq<Tree>, nat), ErrorView>,
    Scope,
)
    decreases ts.len() - pos, 1nat,
{
    match term_at(ts, pos, sc) {
        (Err(e), sc1) => (Err(e), sc1),
        (Ok((t, p)), sc1) => if pos < p && is_mark(ts, p, Mark::Comma) {
            match args_at(ts, p + 1, sc1) {
                (Err(e), sc2) => (Err(e), sc2),
                (Ok((rest, end)), sc2) => (Ok((seq![t] + rest, end)), sc2),
            }
        } else {
            (Ok((seq![t], p)), sc1)
        },
    }
}

/// The arguments of a predicate at `pos`, if an opening parenthesis stands
/// there.
pub open spec fn predicate_args_at(ts: Seq<(Tok, nat)>, pos: nat, sc: Scope) -> (
    Result<(Seq<Tree>, nat), ErrorView>,
    Scope,
) {
    if is_mark(ts, pos, Mark::LParen) {
        match args_at(ts, pos + 1, sc) {
            (Err(e), sc1) => (Err(e), sc1),
            (Ok((args, p)), sc1) => match expect_at(
                ts,
                p,
                Mark::RParen,
                "')' penutup argumen predicate"@,
            ) {
                Err(e) => (Err(e), sc1),
                Ok(end) => (Ok((args, end)), sc1),
            },
        }
    } else {
        (Ok((Seq::empty(), pos)), sc)
    }
}

/// Whether `=` or `!=` stands at `pos`.
pub open spec fn is_equality(ts: Seq<(Tok, nat)>, pos: nat) -> bool {
    is_mark(ts, pos, Mark::Equals) || is_mark(ts, pos, Mark::NotEquals)
}

/// The error on `=` or `!=` at `pos`.
pub open spec fn equality_error(ts: Seq<(Tok, nat)>, pos: nat) -> ErrorView {
    error_at(
        line_at(ts, pos),
        "literal equality ('=' / '!=') belum didukung — Bear belum punya paramodulation"@,
    )
}

/// The literal at `pos`. The predicate is numbered after its arguments.
pub open spec fn literal_at(ts: Seq<(Tok, nat)>, pos: nat, sc: Scope) -> (
    Result<(Lit, nat), ErrorView>,
    Scope,
) {
    let negated = is_mark(ts, pos, Mark::Tilde);
    let at = if negated {
        pos + 1
    } else {
        pos
    };
    match name_at(ts, at, "nama predicate"@) {
        Err(e) => (Err(e), sc),
        Ok(name) => if is_variable(name) {
            if is_equality(ts, at + 1) {
                (Err(equality_error(ts, at + 1)), sc)
            } else {
                (Err(error_at(line_at(ts, at), variable_message(name, "predicate"@))), sc)
            }
        } else {
            match predicate_args_at(ts, at + 1, sc) {
                (Err(e), sc1) => (Err(e), sc1),
                (Ok((args, end)), sc1) => if is_equality(ts, end) {
                    (Err(equality_error(ts, end)), sc1)
                } else {
                    (
                        Ok(
                            (
                                Lit {
                                    positive: !negated,
                                    predicate: id_in(sc1.names, name),
                                    args,
                                },
                                end,
                            ),
                        ),
                        sc1.with_name(name),
                    )
                },
            }
        },
    }
}

/// The literals from `pos` on with bars between them.
pub open spec fn literals_at(ts: Seq<(Tok, nat)>, pos: nat, sc: Scope) -> (
    Result<(Seq<Lit>, nat), ErrorView>,
    Scope,
)
    decreases ts.len() - pos,
{
    match literal_at(ts, pos, sc) {
        (Err(e), sc1) => (Err(e), sc1),
        (Ok((l, p)), sc1) => if pos < p && is_mark(ts, p, Mark::Pipe) {
            match literals_at(ts, p + 1, sc1) {
                (Err(e), sc2) => (Err(e), sc2),
                (Ok((rest, end)), sc2) => (Ok((seq![l] + rest, end)), sc2),
            }
        } else {
            (Ok((seq![l], p)), sc1)
        },
    }
}

/// The formula at `pos`: literals, with or without parentheses around them.
pub open spec fn formula_at(ts: Seq<(Tok, nat)>, pos: nat, sc: Scope) -> (
    Result<(Seq<Lit>, nat), ErrorView>,
    Scope,
) {
    if is_mark(ts, pos, Mark::LParen) {
        match literals_at(ts, pos + 1, sc) {
            (Err(e), sc1) => (Err(e), sc1),
            (Ok((ls, p)), sc1) => match expect_at(ts, p, Mark::RParen, "')' penutup formula"@) {
                Err(e) => (Err(e), sc1),
                Ok(end) => (Ok((ls, end)), sc1),
            },
        }
    } else {
        literals_at(ts, pos, sc)
    }
}

/// Reads `cnf(name, role,` from `pos` on: the position after it.
pub open spec fn header_at(ts: Seq<(Tok, nat)>, pos: nat) -> Result<nat, ErrorView> {
    match name_at(ts, pos, "'cnf'"@) {
        Err(e) => Err(e),
        Ok(keyword) => if keyword != "cnf"@ {
            Err(
                error_at(
                    line_at(ts, pos),
                    "diharapkan 'cnf(...)', ditemukan '"@ + keyword + "(...)'"@,
                ),
            )
        } else {
            match expect_at(ts, pos + 1, Mark::LParen, "'(' setelah 'cnf'"@) {
                Err(e) => Err(e),
                Ok(_) => match name_at(ts, pos + 2, "nama clause"@) {
                    Err(e) => Err(e),
                    Ok(_) => match expect_at(
                        ts,
                        pos + 3,
                        Mark::Comma,
                        "',' setelah nama clause"@,
                    ) {
                        Err(e) => Err(e),
                        Ok(_) => match name_at(
                            ts,
                            pos + 4,
                            "role (mis. 'axiom', 'conjecture')"@,
                        ) {
                            Err(e) => Err(e),
                            Ok(_) => expect_at(ts, pos + 5, Mark::Comma, "',' setelah role"@),
                        },
                    },
                },
            }
        },
    }
}

/// The statement at `pos`: its clause and the position after it. Each
/// statement has variables of its own.
pub open spec fn statement_at(ts: Seq<(Tok, nat)>, pos: nat, kn: Known) -> (
    Result<(Seq<Lit>, nat), ErrorView>,
    Known,
) {
    match header_at(ts, pos) {
        Err(e) => (Err(e), kn),
        Ok(p) => {
            let (r, sc) = formula_at(ts, p, kn.scope());
            match r {
                Err(e) => (Err(e), sc.known()),
                Ok((ls, q)) => match expect_at(ts, q, Mark::RParen, "')' penutup 'cnf(...)'"@) {
                    Err(e) => (Err(e), sc.known()),
                    Ok(q1) => match expect_at(ts, q1, Mark::Dot, "'.' penutup statement"@) {
                        Err(e) => (Err(e), sc.known()),
                        Ok(end) => (Ok((ls, end)), sc.known()),
                    },
                },
            }
        },
    }
}

/// The clauses of the statements from `pos` on.
pub open spec fn statements_at(ts: Seq<(Tok, nat)>, pos: nat, kn: Known) -> (
    Result<Seq<Seq<Lit>>, ErrorView>,
    Known,
)
    decreases ts.len() - pos,
{
    if pos >= ts.len() {
        (Ok(Seq::empty()), kn)
    } else {
        match statement_at(ts, pos, kn) {
            (Err(e), kn1) => (Err(e), kn1),
            (Ok((c, p)), kn1) => if p <= pos || p > ts.len() {
                (Ok(Seq::empty()), kn1)
            } else {
                match statements_at(ts, p, kn1) {
                    (Err(e), kn2) => (Err(e), kn2),
                    (Ok(cs), kn2) => (Ok(seq![c] + cs), kn2),
                }
            },
        }
    }
}

/// The clauses of a problem text, or the first error in it, and the symbols
/// known after reading it.
pub open spec fn tptp_problem_of(text: Seq<char>, kn: Known) -> (
    Result<Seq<Seq<Lit>>, ErrorView>,
    Known,
) {
    match scan(text, 0, 1) {
        Err(e) => (Err(e), kn),
        Ok(ts) => statements_at(ts, 0, kn),
    }
}

// ---------------------------------------------------------------------------
// What is read is not larger than its text.
// ---------------------------------------------------------------------------
pub(crate) proof fn lemma_term_at(ts: Seq<(Tok, nat)>, pos: nat, sc: Scope)
    ensures
        term_at(ts, pos, sc).0 matches Ok((t, end)) ==> {
            &&& pos < end <= ts.len()
            &&& t.size() <= end - pos
        },
    decreases ts.len() - pos, 0nat,
{
    if pos < ts.len() && is_mark(ts, pos + 1, Mark::LParen) {
        lemma_args_at(ts, pos + 2, sc);
    }
}

pub(crate) proof fn lemma_args_at(ts: Seq<(Tok, nat)>, pos: nat, sc: Scope)
    ensures
        args_at(ts, pos, sc).0 matches Ok((args, end)) ==> {
            &&& pos < end <= ts.len()
            &&& args.len() > 0
            &&& sizes(args, args.len()) <= end - pos
        },
    decreases ts.len() - pos, 1nat,
{
    lemma_term_at(ts, pos, sc);
    if let (Ok((t, p)), sc1) = term_at(ts, pos, sc) {
        assert(sizes(seq![t], 1) == sizes(seq![t], 0) + t.size());
        if is_mark(ts, p, Mark::Comma) {
            lemma_args_at(ts, p + 1, sc1);
            if let (Ok((rest, end)), sc2) = args_at(ts, p + 1, sc1) {
                lemma_sizes_cons(t, rest, rest.len());
            }
        }
    }
}

pub(crate) proof fn lemma_literal_at(ts: Seq<(Tok, nat)>, pos: nat, sc: Scope)
    ensures
        literal_at(ts, pos, sc).0 matches Ok((l, end)) ==> {
            &&& pos < end <= ts.len()
            &&& l.weight() <= end - pos
        },
{
    let at = if is_mark(ts, pos, Mark::Tilde) {
        pos + 1
    } else {
        pos
    };
    if is_mark(ts, at + 1, Mark::LParen) {
        lemma_args_at(ts, at + 2, sc);
    }
}

pub(crate) proof fn lemma_literals_at(ts: Seq<(Tok, nat)>, pos: nat, sc: Scope)
    ensures
        literals_at(ts, pos, sc).0 matches Ok((ls, end)) ==> {
            &&& pos < end <= ts.len()
            &&& weights(ls, ls.len()) <= end - pos
        },
    decreases ts.len() - pos,
{
    lemma_literal_at(ts, pos, sc);
    if let (Ok((l, p)), sc1) = literal_at(ts, pos, sc) {
        assert(weights(seq![l], 1) == weights(seq![l], 0) + l.weight());
        if is_mark(ts, p, Mark::Pipe) {
            lemma_literals_at(ts, p + 1, sc1);
            if let (Ok((rest, end)), sc2) = literals_at(ts, p + 1, sc1) {
                lemma_weights_cons(l, rest, rest.len());
            }
        }
    }
}

pub(crate) proof fn lemma_statement_at(ts: Seq<(Tok, nat)>, pos: nat, kn: Known)
    ensures
        statement_at(ts, pos, kn).0 matches Ok((ls, end)) ==> {
            &&& pos < end <= ts.len()
            &&& weights(ls, ls.len()) <= end - pos
        },
{
    if let Ok(p) = header_at(ts, pos) {
        let sc = kn.scope();
        if is_mark(ts, p, Mark::LParen) {
            lemma_literals_at(ts, p + 1, sc);
        } else {
            lemma_literals_at(ts, p, sc);
        }
    }
}

proof fn lemma_statements_at(ts: Seq<(Tok, nat)>, pos: nat, kn: Known)
    ensures
        statements_at(ts, pos, kn).0 matches Ok(cs) ==> {
            &&& pos <= ts.len() ==> cs.len() <= ts.len() - pos
            &&& forall|i: int|
                0 <= i < cs.len() ==> weights(#[trigger] cs[i], cs[i].len()) <= ts.len()
        },
    decreases ts.len() - pos,
{
    if pos < ts.len() {
        lemma_statement_at(ts, pos, kn);
        if let (Ok((c, p)), kn1) = statement_at(ts, pos, kn) {
            lemma_statements_at(ts, p, kn1);
            if let (Ok(cs), kn2) = statements_at(ts, p, kn1) {
                let all = seq![c] + cs;
                assert forall|i: int| 0 <= i < all.len() implies weights(
                    #[trigger] all[i],
                    all[i].len(),
                ) <= ts.len() by {
                    if i > 0 {
                        assert(all[i] == cs[i - 1]);
                    }
                }
            }
        }
    }
}

/// A text has at least as many characters as it has clauses, and as any of its
/// clauses weighs.
pub proof fn tptp_problem_is_no_larger_than_its_text(text: Seq<char>, kn: Known)
    ensures
        tptp_problem_of(text, kn).0 matches Ok(cs) ==> {
            &&& cs.len() <= text.len()
            &&& forall|i: int|
                0 <= i < cs.len() ==> weights(#[trigger] cs[i], cs[i].len()) <= text.len()
        },
{
    lemma_scan(text, 0, 1);
    if let Ok(ts) = scan(text, 0, 1) {
        lemma_statements_at(ts, 0, kn);
    }
}

// ---------------------------------------------------------------------------
// Errors are in a line of the text.
// ---------------------------------------------------------------------------
proof fn lemma_breaks(s: Seq<char>, i: nat, j: nat)
    requires
        i <= j <= s.len(),
    ensures
        breaks(s, i, j) + breaks_from(s, j) == breaks_from(s, i),
    decreases j - i,
{
    if i < j {
        lemma_breaks(s, i + 1, j);
    }
}

spec fn lines_within(ts: Seq<(Tok, nat)>, first: nat, last: nat) -> bool {
    forall|k: int| 0 <= k < ts.len() ==> first <= (#[trigger] ts[k]).1 <= last
}

spec fn scanned_within(r: Result<Seq<(Tok, nat)>, ErrorView>, first: nat, last: nat) -> bool {
    match r {
        Ok(ts) => lines_within(ts, first, last),
        Err(e) => first <= e.line <= last,
    }
}

proof fn lemma_cons_within(
    t: (Tok, nat),
    rest: Result<Seq<(Tok, nat)>, ErrorView>,
    first: nat,
    last: nat,
)
    requires
        first <= t.1 <= last,
        scanned_within(rest, first, last),
    ensures
        scanned_within(cons(t, rest), first, last),
{
    if let Ok(ts) = rest {
        let all = seq![t] + ts;
        assert forall|k: int| 0 <= k < all.len() implies first <= (#[trigger] all[k]).1 <= last by {
            if k > 0 {
                assert(all[k] == ts[k - 1]);
            }
        }
    }
}

proof fn lemma_scan_lines(s: Seq<char>, i: nat, line: nat)
    ensures
        scanned_within(scan(s, i, line), line, line + breaks_from(s, i)),
    decreases s.len() - i,
{
    if i < s.len() {
        let c = s[i as int];
        let last = line + breaks_from(s, i);
        lemma_line_end(s, i + 1);
        lemma_comment_end(s, i + 2);
        lemma_quote_end(s, i + 1);
        lemma_ident_end(s, i + 1);
        if c == ' ' || c == '\t' || c == '\r' {
            lemma_scan_lines(s, i + 1, line);
        } else if c == '\n' {
            lemma_scan_lines(s, i + 1, line + 1);
        } else if c == '%' {
            lemma_scan_lines(s, line_end(s, i + 1), line);
            lemma_breaks_from(s, i, line_end(s, i + 1));
        } else if c == '/' {
            if let Some(e) = comment_end(s, i + 2) {
                lemma_scan_lines(s, e, line + breaks(s, i + 2, e));
                lemma_breaks_from(s, i, i + 2);
                lemma_breaks(s, i + 2, e);
            }
        } else if mark_of(c) is Some {
            lemma_scan_lines(s, i + 1, line);
            lemma_cons_within(
                (Tok::Punct(mark_of(c)->Some_0), line),
                scan(s, i + 1, line),
                line,
                last,
            );
        } else if c == '!' {
            if i + 1 < s.len() {
                lemma_scan_lines(s, i + 2, line);
                lemma_breaks_from(s, i, i + 2);
                lemma_cons_within(
                    (Tok::Punct(Mark::NotEquals), line),
                    scan(s, i + 2, line),
                    line,
                    last,
                );
            }
        } else if c == '\'' {
            let e = quote_end(s, i + 1);
            if e < s.len() {
                lemma_scan_lines(s, e + 1, line);
                lemma_breaks_from(s, i, e + 1);
                lemma_cons_within(
                    (Tok::Ident(s.subrange((i + 1) as int, e as int)), line),
                    scan(s, e + 1, line),
                    line,
                    last,
                );
            }
        } else if !white_space(c) {
            let e = ident_end(s, i + 1);
            lemma_scan_lines(s, e, line);
            lemma_breaks_from(s, i, e);
            lemma_cons_within(
                (Tok::Ident(s.subrange(i as int, e as int)), line),
                scan(s, e, line),
                line,
                last,
            );
        }
    }
}

proof fn lemma_term_lines(ts: Seq<(Tok, nat)>, pos: nat, sc: Scope, last: nat)
    requires
        ts.len() > 0,
        lines_within(ts, 1, last),
    ensures
        term_at(ts, pos, sc).0 matches Err(e) ==> 1 <= e.line <= last,
    decreases ts.len() - pos, 0nat,
{
    if pos < ts.len() && is_mark(ts, pos + 1, Mark::LParen) {
        lemma_args_lines(ts, pos + 2, sc, last);
    }
}

proof fn lemma_args_lines(ts: Seq<(Tok, nat)>, pos: nat, sc: Scope, last: nat)
    requires
        ts.len() > 0,
        lines_within(ts, 1, last),
    ensures
        args_at(ts, pos, sc).0 matches Err(e) ==> 1 <= e.line <= last,
    decreases ts.len() - pos, 1nat,
{
    lemma_term_lines(ts, pos, sc, last);
    if let (Ok((_, p)), sc1) = term_at(ts, pos, sc) {
        if pos < p && is_mark(ts, p, Mark::Comma) {
            lemma_args_lines(ts, p + 1, sc1, last);
        }
    }
}

proof fn lemma_literals_lines(ts: Seq<(Tok, nat)>, pos: nat, sc: Scope, last: nat)
    requires
        ts.len() > 0,
        lines_within(ts, 1, last),
    ensures
        literals_at(ts, pos, sc).0 matches Err(e) ==> 1 <= e.line <= last,
    decreases ts.len() - pos,
{
    let at = if is_mark(ts, pos, Mark::Tilde) {
        pos + 1
    } else {
        pos
    };
    if is_mark(ts, at + 1, Mark::LParen) {
        lemma_args_lines(ts, at + 2, sc, last);
    }
    assert(literal_at(ts, pos, sc).0 matches Err(e) ==> 1 <= e.line <= last);
    if let (Ok((_, p)), sc1) = literal_at(ts, pos, sc) {
        if pos < p && is_mark(ts, p, Mark::Pipe) {
            lemma_literals_lines(ts, p + 1, sc1, last);
        }
    }
}

proof fn lemma_statements_lines(
    ts: Seq<(Tok, nat)>,
    pos: nat,
    kn: Known,
    last: nat,
)
    requires
        lines_within(ts, 1, last),
    ensures
        statements_at(ts, pos, kn).0 matches Err(e) ==> 1 <= e.line <= last,
    decreases ts.len() - pos,
{
    if pos < ts.len() {
        if let Ok(p) = header_at(ts, pos) {
            let sc = kn.scope();
            lemma_literals_lines(ts, p, sc, last);
            lemma_literals_lines(ts, p + 1, sc, last);
        }
        if let (Ok((_, p)), kn1) = statement_at(ts, pos, kn) {
            if pos < p <= ts.len() {
                lemma_statements_lines(ts, p, kn1, last);
            }
        }
    }
}

/// An error is in a line of the text, counted from 1.
pub proof fn tptp_errors_are_in_the_text(text: Seq<char>, kn: Known)
    ensures
        tptp_problem_of(text, kn).0 matches Err(e) ==> 1 <= e.line <= line_count(text),
{
    lemma_scan_lines(text, 0, 1);
    if let Ok(ts) = scan(text, 0, 1) {
        lemma_statements_lines(ts, 0, kn, line_count(text));
    }
}

// ---------------------------------------------------------------------------
// What is built is what is read.
// ---------------------------------------------------------------------------
proof fn lemma_term_built(ts: Seq<(Tok, nat)>, pos: nat, sc: Scope)
    ensures
        term_at(ts, pos, sc).0 matches Ok((t, _)) ==> term_at(ts, pos, sc).1.forest == plant(
            sc.forest,
            t,
        ),
    decreases ts.len() - pos, 0nat,
{
    assert(plant_list(sc.forest, Seq::empty(), 0) == sc.forest);
    if pos < ts.len() && is_mark(ts, pos + 1, Mark::LParen) {
        lemma_args_built(ts, pos + 2, sc);
    }
}

proof fn lemma_args_built(ts: Seq<(Tok, nat)>, pos: nat, sc: Scope)
    ensures
        args_at(ts, pos, sc).0 matches Ok((args, _)) ==> args_at(ts, pos, sc).1.forest
            == plant_list(sc.forest, args, args.len()),
    decreases ts.len() - pos, 1nat,
{
    lemma_term_at(ts, pos, sc);
    lemma_term_built(ts, pos, sc);
    if let (Ok((t, p)), sc1) = term_at(ts, pos, sc) {
        let one = seq![t];
        assert(plant_list(sc.forest, one, 0) == sc.forest);
        assert(plant_list(sc.forest, one, 1) == plant(sc.forest, one[0]));
        if is_mark(ts, p, Mark::Comma) {
            lemma_args_built(ts, p + 1, sc1);
            if let (Ok((rest, _)), _) = args_at(ts, p + 1, sc1) {
                lemma_plant_cons(sc.forest, t, rest, rest.len());
            }
        }
    }
}

proof fn lemma_literals_built(ts: Seq<(Tok, nat)>, pos: nat, sc: Scope)
    ensures
        literals_at(ts, pos, sc).0 matches Ok((ls, _)) ==> literals_at(ts, pos, sc).1.forest
            == plant_lits(sc.forest, ls, ls.len()),
    decreases ts.len() - pos,
{
    lemma_literal_at(ts, pos, sc);
    let at = if is_mark(ts, pos, Mark::Tilde) {
        pos + 1
    } else {
        pos
    };
    if is_mark(ts, at + 1, Mark::LParen) {
        lemma_args_built(ts, at + 2, sc);
    }
    assert(plant_list(sc.forest, Seq::empty(), 0) == sc.forest);
    if let (Ok((l, p)), sc1) = literal_at(ts, pos, sc) {
        assert(sc1.forest == plant_list(sc.forest, l.args, l.args.len()));
        let one = seq![l];
        assert(plant_lits(sc.forest, one, 0) == sc.forest);
        assert(plant_lits(sc.forest, one, 1) == plant_list(
            sc.forest,
            one[0].args,
            one[0].args.len(),
        ));
        if is_mark(ts, p, Mark::Pipe) {
            lemma_literals_built(ts, p + 1, sc1);
            if let (Ok((rest, _)), _) = literals_at(ts, p + 1, sc1) {
                lemma_plant_lits_cons(sc.forest, l, rest, rest.len());
            }
        }
    }
}

proof fn lemma_statements_built(ts: Seq<(Tok, nat)>, pos: nat, kn: Known)
    ensures
        statements_at(ts, pos, kn).0 matches Ok(cs) ==> statements_at(ts, pos, kn).1.forest
            == plant_clauses(kn.forest, cs, cs.len()),
    decreases ts.len() - pos,
{
    if pos < ts.len() {
        lemma_statement_at(ts, pos, kn);
        if let Ok(p) = header_at(ts, pos) {
            lemma_literals_built(ts, p, kn.scope());
            lemma_literals_built(ts, p + 1, kn.scope());
        }
        if let (Ok((c, p)), kn1) = statement_at(ts, pos, kn) {
            lemma_statements_built(ts, p, kn1);
            if let (Ok(cs), _) = statements_at(ts, p, kn1) {
                lemma_plant_clauses_cons(kn.forest, c, cs, cs.len());
            }
        }
    }
}

/// Reading a problem builds the terms of its clauses and nothing else; where
/// the text does not fall into tokens it builds nothing.
pub proof fn tptp_reading_builds_the_clauses(text: Seq<char>, kn: Known)
    ensures
        tptp_problem_of(text, kn).0 matches Ok(cs) ==> tptp_problem_of(text, kn).1.forest
            == plant_clauses(kn.forest, cs, cs.len()),
        scan(text, 0, 1) is Err ==> tptp_problem_of(text, kn).1 == kn,
{
    if let Ok(ts) = scan(text, 0, 1) {
        lemma_statements_built(ts, 0, kn);
    }
}

// ---------------------------------------------------------------------------
// Reading adds to what is known.
// ---------------------------------------------------------------------------
proof fn lemma_term_grows(ts: Seq<(Tok, nat)>, pos: nat, sc: Scope)
    ensures
        grows(sc, term_at(ts, pos, sc).1),
    decreases ts.len() - pos, 0nat,
{
    lemma_grows_self(sc);
    if let Ok(name) = name_at(ts, pos, "nama term"@) {
        if is_variable(name) {
            lemma_var_grows(sc, name);
        } else if is_mark(ts, pos + 1, Mark::LParen) {
            lemma_args_grow(ts, pos + 2, sc);
            if let (Ok((args, _)), sc1) = args_at(ts, pos + 2, sc) {
                lemma_symbol_grows(sc1, name, args);
                lemma_grows_trans(sc, sc1, with_symbol(sc1, name, args));
            }
        } else {
            lemma_symbol_grows(sc, name, Seq::empty());
        }
    }
}

/// The scope after a symbol was numbered and applied.
spec fn with_symbol(sc: Scope, name: Seq<char>, args: Seq<Tree>) -> Scope {
    sc.with_name(name).built(Tree::App(id_in(sc.names, name), args))
}

proof fn lemma_symbol_grows(sc: Scope, name: Seq<char>, args: Seq<Tree>)
    ensures
        grows(sc, with_symbol(sc, name, args)),
{
    let t = Tree::App(id_in(sc.names, name), args);
    lemma_with_name_grows(sc, name);
    lemma_built_grows(sc.with_name(name), t);
    lemma_grows_trans(sc, sc.with_name(name), with_symbol(sc, name, args));
}

proof fn lemma_args_grow(ts: Seq<(Tok, nat)>, pos: nat, sc: Scope)
    ensures
        grows(sc, args_at(ts, pos, sc).1),
    decreases ts.len() - pos, 1nat,
{
    lemma_term_at(ts, pos, sc);
    lemma_term_grows(ts, pos, sc);
    if let (Ok((_, p)), sc1) = term_at(ts, pos, sc) {
        if is_mark(ts, p, Mark::Comma) {
            lemma_args_grow(ts, p + 1, sc1);
            lemma_grows_trans(sc, sc1, args_at(ts, p + 1, sc1).1);
        }
    }
}

proof fn lemma_literal_grows(ts: Seq<(Tok, nat)>, pos: nat, sc: Scope)
    ensures
        grows(sc, literal_at(ts, pos, sc).1),
{
    let at = if is_mark(ts, pos, Mark::Tilde) {
        pos + 1
    } else {
        pos
    };
    lemma_grows_self(sc);
    lemma_args_grow(ts, at + 2, sc);
    if let Ok(name) = name_at(ts, at, "nama predicate"@) {
        let sc1 = predicate_args_at(ts, at + 1, sc).1;
        lemma_with_name_grows(sc1, name);
        lemma_grows_trans(sc, sc1, sc1.with_name(name));
    }
}

pub(crate) proof fn lemma_literals_grow(ts: Seq<(Tok, nat)>, pos: nat, sc: Scope)
    ensures
        grows(sc, literals_at(ts, pos, sc).1),
    decreases ts.len() - pos,
{
    lemma_literal_at(ts, pos, sc);
    lemma_literal_grows(ts, pos, sc);
    if let (Ok((_, p)), sc1) = literal_at(ts, pos, sc) {
        if is_mark(ts, p, Mark::Pipe) {
            lemma_literals_grow(ts, p + 1, sc1);
            lemma_grows_trans(sc, sc1, literals_at(ts, p + 1, sc1).1);
        }
    }
}

/// Where numbers suffice for what is known after more statements, they suffice
/// before.
pub(crate) proof fn lemma_statements_grow(ts: Seq<(Tok, nat)>, pos: nat, kn: Known)
    ensures
        statements_at(ts, pos, kn).1.in_range() ==> kn.in_range(),
    decreases ts.len() - pos,
{
    if pos < ts.len() {
        lemma_statement_at(ts, pos, kn);
        let (r, kn1) = statement_at(ts, pos, kn);
        if let Ok(p) = header_at(ts, pos) {
            lemma_literals_grow(ts, p, kn.scope());
            lemma_literals_grow(ts, p + 1, kn.scope());
        }
        if let Ok((_, p)) = r {
            lemma_statements_grow(ts, p, kn1);
        }
        if kn1.in_range() {
            lemma_grows_self(kn.scope());
            if kn.forest.is_prefix_of(kn1.forest) {
                lemma_numbered_prefix(kn.forest, kn1.forest);
            }
        }
    }
}

proof fn lemma_term_adds(ts: Seq<(Tok, nat)>, pos: nat, sc: Scope)
    requires
        pos <= ts.len(),
    ensures
        ({
            let (r, sc1) = term_at(ts, pos, sc);
            match r {
                Ok((_, end)) => adds(sc, sc1, end - pos, end - pos - 1),
                Err(_) => adds(sc, sc1, ts.len() - pos, ts.len() - pos),
            }
        }),
    decreases ts.len() - pos, 0nat,
{
    if let Ok(name) = name_at(ts, pos, "nama term"@) {
        lemma_with_tree(sc.forest, Tree::Var(id_in(sc.vars, name)));
        lemma_with_tree(sc.forest, Tree::App(id_in(sc.names, name), Seq::empty()));
        if !is_variable(name) && is_mark(ts, pos + 1, Mark::LParen) {
            lemma_args_at(ts, pos + 2, sc);
            lemma_args_add(ts, pos + 2, sc);
            if let (Ok((args, p)), sc1) = args_at(ts, pos + 2, sc) {
                lemma_with_tree(sc1.forest, Tree::App(id_in(sc1.names, name), args));
            }
        }
    }
}

proof fn lemma_args_add(ts: Seq<(Tok, nat)>, pos: nat, sc: Scope)
    requires
        pos <= ts.len(),
    ensures
        ({
            let (r, sc1) = args_at(ts, pos, sc);
            match r {
                Ok((args, end)) => adds(sc, sc1, end - pos, end - pos - args.len()),
                Err(_) => adds(sc, sc1, ts.len() - pos, ts.len() - pos),
            }
        }),
    decreases ts.len() - pos, 1nat,
{
    lemma_term_at(ts, pos, sc);
    lemma_term_adds(ts, pos, sc);
    if let (Ok((_, p)), sc1) = term_at(ts, pos, sc) {
        if is_mark(ts, p, Mark::Comma) {
            lemma_args_at(ts, p + 1, sc1);
            lemma_args_add(ts, p + 1, sc1);
        }
    }
}

proof fn lemma_literals_add(ts: Seq<(Tok, nat)>, pos: nat, sc: Scope)
    requires
        pos <= ts.len(),
    ensures
        ({
            let (r, sc1) = literals_at(ts, pos, sc);
            match r {
                Ok((_, end)) => adds(sc, sc1, end - pos, end - pos),
                Err(_) => adds(sc, sc1, ts.len() - pos, ts.len() - pos),
            }
        }),
    decreases ts.len() - pos,
{
    lemma_literal_at(ts, pos, sc);
    let at = if is_mark(ts, pos, Mark::Tilde) {
        pos + 1
    } else {
        pos
    };
    if is_mark(ts, at + 1, Mark::LParen) {
        lemma_args_at(ts, at + 2, sc);
        lemma_args_add(ts, at + 2, sc);
    }
    let (r, sc1) = literal_at(ts, pos, sc);
    assert(r is Err ==> adds(sc, sc1, ts.len() - pos, ts.len() - pos));
    if let Ok((_, p)) = r {
        assert(adds(sc, sc1, p - pos, p - pos));
        if is_mark(ts, p, Mark::Pipe) {
            lemma_literals_at(ts, p + 1, sc1);
            lemma_literals_add(ts, p + 1, sc1);
        }
    }
}

proof fn lemma_statements_add(ts: Seq<(Tok, nat)>, pos: nat, kn: Known)
    requires
        pos <= ts.len(),
    ensures
        adds(
            kn.scope(),
            statements_at(ts, pos, kn).1.scope(),
            ts.len() - pos,
            ts.len() - pos,
        ),
    decreases ts.len() - pos,
{
    if pos < ts.len() {
        lemma_statement_at(ts, pos, kn);
        let (r, kn1) = statement_at(ts, pos, kn);
        if let Ok(p) = header_at(ts, pos) {
            assert(p == pos + 6 && p <= ts.len());
            let sc = kn.scope();
            lemma_literals_at(ts, p, sc);
            lemma_literals_add(ts, p, sc);
            if is_mark(ts, p, Mark::LParen) {
                lemma_literals_at(ts, p + 1, sc);
                lemma_literals_add(ts, p + 1, sc);
            }
        }
        assert(r is Err ==> adds(kn.scope(), kn1.scope(), ts.len() - pos, ts.len() - pos));
        if let Ok((_, p)) = r {
            assert(adds(kn.scope(), kn1.scope(), p - pos, p - pos));
            lemma_statements_add(ts, p, kn1);
        }
    }
}

/// A text that is short enough can be read: no more symbols, terms and
/// arguments are new than it has characters.
pub proof fn short_tptp_texts_can_be_read(text: Seq<char>, kn: Known)
    requires
        kn.names.len() + text.len() <= u32::MAX,
        kn.forest.len() + text.len() <= u32::MAX,
        arities(kn.forest) + text.len() <= u32::MAX,
    ensures
        tptp_problem_of(text, kn).1.in_range(),
{
    lemma_scan(text, 0, 1);
    if let Ok(ts) = scan(text, 0, 1) {
        lemma_statements_add(ts, 0, kn);
    }
}

// ---------------------------------------------------------------------------
// Names, roles and parentheses have no effect.
// ---------------------------------------------------------------------------
/// Whether the tokens from `lo` to `hi` are those of `us`, `d` positions on.
spec fn alike(ts: Seq<(Tok, nat)>, us: Seq<(Tok, nat)>, lo: int, hi: int, d: int) -> bool {
    &&& 0 <= lo <= hi < ts.len()
    &&& 0 <= lo + d
    &&& hi + d < us.len()
    &&& forall|k: int| lo <= k <= hi ==> (#[trigger] ts[k]).0 == us[k + d].0
}

proof fn lemma_alike_mark(
    ts: Seq<(Tok, nat)>,
    us: Seq<(Tok, nat)>,
    lo: int,
    hi: int,
    d: int,
    k: nat,
    m: Mark,
)
    requires
        alike(ts, us, lo, hi, d),
        lo <= k <= hi,
    ensures
        is_mark(ts, k, m) == is_mark(us, (k + d) as nat, m),
{
    assert(ts[k as int].0 == us[k + d].0);
}

proof fn lemma_alike_term(
    ts: Seq<(Tok, nat)>,
    us: Seq<(Tok, nat)>,
    lo: int,
    hi: int,
    d: int,
    pos: nat,
    sc: Scope,
)
    requires
        alike(ts, us, lo, hi, d),
        lo <= pos,
        term_at(ts, pos, sc).0 matches Ok((_, end)) && end <= hi,
    ensures
        term_at(ts, pos, sc).0 matches Ok((t, end)) && term_at(us, (pos + d) as nat, sc) == (
            Ok::<(Tree, nat), ErrorView>((t, (end + d) as nat)),
            term_at(ts, pos, sc).1,
        ),
    decreases ts.len() - pos, 0nat,
{
    lemma_term_at(ts, pos, sc);
    assert(ts[pos as int].0 == us[pos + d].0);
    lemma_alike_mark(ts, us, lo, hi, d, pos + 1, Mark::LParen);
    let name = ts[pos as int].0->Ident_0;
    if !is_variable(name) && is_mark(ts, pos + 1, Mark::LParen) {
        lemma_args_at(ts, pos + 2, sc);
        if let (Ok((_, p)), _) = args_at(ts, pos + 2, sc) {
            lemma_alike_args(ts, us, lo, hi, d, pos + 2, sc);
            lemma_alike_mark(ts, us, lo, hi, d, p, Mark::RParen);
        }
    }
}

proof fn lemma_alike_args(
    ts: Seq<(Tok, nat)>,
    us: Seq<(Tok, nat)>,
    lo: int,
    hi: int,
    d: int,
    pos: nat,
    sc: Scope,
)
    requires
        alike(ts, us, lo, hi, d),
        lo <= pos,
        args_at(ts, pos, sc).0 matches Ok((_, end)) && end <= hi,
    ensures
        args_at(ts, pos, sc).0 matches Ok((args, end)) && args_at(us, (pos + d) as nat, sc) == (
            Ok::<(Seq<Tree>, nat), ErrorView>((args, (end + d) as nat)),
            args_at(ts, pos, sc).1,
        ),
    decreases ts.len() - pos, 1nat,
{
    lemma_term_at(ts, pos, sc);
    lemma_args_at(ts, pos, sc);
    if let (Ok((_, p)), sc1) = term_at(ts, pos, sc) {
        if is_mark(ts, p, Mark::Comma) {
            lemma_args_at(ts, p + 1, sc1);
            lemma_alike_args(ts, us, lo, hi, d, p + 1, sc1);
        }
        lemma_alike_term(ts, us, lo, hi, d, pos, sc);
        lemma_alike_mark(ts, us, lo, hi, d, p, Mark::Comma);
    }
}

proof fn lemma_alike_literal(
    ts: Seq<(Tok, nat)>,
    us: Seq<(Tok, nat)>,
    lo: int,
    hi: int,
    d: int,
    pos: nat,
    sc: Scope,
)
    requires
        alike(ts, us, lo, hi, d),
        lo <= pos,
        literal_at(ts, pos, sc).0 matches Ok((_, end)) && end <= hi,
    ensures
        literal_at(ts, pos, sc).0 matches Ok((l, end)) && literal_at(us, (pos + d) as nat, sc) == (
            Ok::<(Lit, nat), ErrorView>((l, (end + d) as nat)),
            literal_at(ts, pos, sc).1,
        ),
{
    lemma_literal_at(ts, pos, sc);
    lemma_alike_mark(ts, us, lo, hi, d, pos, Mark::Tilde);
    let at = if is_mark(ts, pos, Mark::Tilde) {
        pos + 1
    } else {
        pos
    };
    assert(at < ts.len());
    if is_mark(ts, at + 1, Mark::LParen) {
        lemma_args_at(ts, at + 2, sc);
    }
    assert(ts[at as int].0 == us[at + d].0);
    lemma_alike_mark(ts, us, lo, hi, d, at + 1, Mark::LParen);
    if is_mark(ts, at + 1, Mark::LParen) {
        if let (Ok((_, p)), _) = args_at(ts, at + 2, sc) {
            lemma_alike_args(ts, us, lo, hi, d, at + 2, sc);
            lemma_alike_mark(ts, us, lo, hi, d, p, Mark::RParen);
        }
    }
    if let Ok((_, end)) = literal_at(ts, pos, sc).0 {
        lemma_alike_mark(ts, us, lo, hi, d, end, Mark::Equals);
        lemma_alike_mark(ts, us, lo, hi, d, end, Mark::NotEquals);
    }
}

proof fn lemma_alike_literals(
    ts: Seq<(Tok, nat)>,
    us: Seq<(Tok, nat)>,
    lo: int,
    hi: int,
    d: int,
    pos: nat,
    sc: Scope,
)
    requires
        alike(ts, us, lo, hi, d),
        lo <= pos,
        literals_at(ts, pos, sc).0 matches Ok((_, end)) && end <= hi,
    ensures
        literals_at(ts, pos, sc).0 matches Ok((ls, end)) && literals_at(
            us,
            (pos + d) as nat,
            sc,
        ) == (
            Ok::<(Seq<Lit>, nat), ErrorView>((ls, (end + d) as nat)),
            literals_at(ts, pos, sc).1,
        ),
    decreases ts.len() - pos,
{
    lemma_literal_at(ts, pos, sc);
    lemma_literals_at(ts, pos, sc);
    if let (Ok((_, p)), sc1) = literal_at(ts, pos, sc) {
        if is_mark(ts, p, Mark::Pipe) {
            lemma_literals_at(ts, p + 1, sc1);
            lemma_alike_literals(ts, us, lo, hi, d, p + 1, sc1);
        }
        lemma_alike_literal(ts, us, lo, hi, d, pos, sc);
        lemma_alike_mark(ts, us, lo, hi, d, p, Mark::Pipe);
    }
}

/// Number of bars among the tokens from `lo` up to `hi`.
pub open spec fn bars(ts: Seq<(Tok, nat)>, lo: nat, hi: nat) -> nat
    decreases hi - lo,
{
    if lo >= hi {
        0
    } else if is_mark(ts, lo, Mark::Pipe) {
        1 + bars(ts, lo + 1, hi)
    } else {
        bars(ts, lo + 1, hi)
    }
}

proof fn lemma_bars_split(ts: Seq<(Tok, nat)>, lo: nat, mid: nat, hi: nat)
    requires
        lo <= mid <= hi,
    ensures
        bars(ts, lo, hi) == bars(ts, lo, mid) + bars(ts, mid, hi),
    decreases mid - lo,
{
    if lo < mid {
        lemma_bars_split(ts, lo + 1, mid, hi);
    }
}

proof fn lemma_term_bars(ts: Seq<(Tok, nat)>, pos: nat, sc: Scope)
    ensures
        term_at(ts, pos, sc).0 matches Ok((_, end)) ==> bars(ts, pos, end) == 0,
    decreases ts.len() - pos, 0nat,
{
    lemma_term_at(ts, pos, sc);
    if let (Ok((_, end)), _) = term_at(ts, pos, sc) {
        let name = ts[pos as int].0->Ident_0;
        lemma_bars_split(ts, pos, pos + 1, end);
        assert(bars(ts, pos + 1, pos + 1) == 0);
        if !is_variable(name) && is_mark(ts, pos + 1, Mark::LParen) {
            lemma_args_bars(ts, pos + 2, sc);
            lemma_args_at(ts, pos + 2, sc);
            if let (Ok((_, p)), _) = args_at(ts, pos + 2, sc) {
                lemma_bars_split(ts, pos + 1, pos + 2, end);
                lemma_bars_split(ts, pos + 2, p, end);
                assert(bars(ts, pos + 2, pos + 2) == 0 && bars(ts, p + 1, p + 1) == 0);
            }
        }
    }
}

proof fn lemma_args_bars(ts: Seq<(Tok, nat)>, pos: nat, sc: Scope)
    ensures
        args_at(ts, pos, sc).0 matches Ok((_, end)) ==> bars(ts, pos, end) == 0,
    decreases ts.len() - pos, 1nat,
{
    lemma_term_at(ts, pos, sc);
    lemma_term_bars(ts, pos, sc);
    if let (Ok((_, p)), sc1) = term_at(ts, pos, sc) {
        if is_mark(ts, p, Mark::Comma) {
            lemma_args_at(ts, p + 1, sc1);
            lemma_args_bars(ts, p + 1, sc1);
            if let (Ok((_, end)), _) = args_at(ts, p + 1, sc1) {
                lemma_bars_split(ts, pos, p, end);
            }
        }
    }
}

/// A list of literals has one literal more than bars.
proof fn lemma_literals_bars(ts: Seq<(Tok, nat)>, pos: nat, sc: Scope)
    ensures
        literals_at(ts, pos, sc).0 matches Ok((ls, end)) ==> ls.len() == 1 + bars(ts, pos, end),
    decreases ts.len() - pos,
{
    lemma_literal_at(ts, pos, sc);
    if let (Ok((_, p)), sc1) = literal_at(ts, pos, sc) {
        let at = if is_mark(ts, pos, Mark::Tilde) {
            pos + 1
        } else {
            pos
        };
        assert(bars(ts, pos, p) == 0) by {
            lemma_bars_split(ts, pos, at, p);
            lemma_bars_split(ts, at, at + 1, p);
            assert(bars(ts, at, at) == 0 && bars(ts, at + 1, at + 1) == 0);
            if is_mark(ts, at + 1, Mark::LParen) {
                lemma_args_bars(ts, at + 2, sc);
                lemma_args_at(ts, at + 2, sc);
                if let (Ok((_, q)), _) = args_at(ts, at + 2, sc) {
                    lemma_bars_split(ts, at + 1, at + 2, p);
                    lemma_bars_split(ts, at + 2, q, p);
                    assert(bars(ts, at + 2, at + 2) == 0 && bars(ts, q + 1, q + 1) == 0);
                }
            }
        }
        if is_mark(ts, p, Mark::Pipe) {
            lemma_literals_bars(ts, p + 1, sc1);
            lemma_literals_at(ts, p + 1, sc1);
            if let (Ok((_, end)), _) = literals_at(ts, p + 1, sc1) {
                lemma_bars_split(ts, pos, p, end);
            }
        }
    }
}

/// The kinds of tokens in `cnf(name, role,`.
pub open spec fn header_kinds(name: Seq<char>, role: Seq<char>) -> Seq<Tok> {
    seq![
        Tok::Ident("cnf"@),
        Tok::Punct(Mark::LParen),
        Tok::Ident(name),
        Tok::Punct(Mark::Comma),
        Tok::Ident(role),
        Tok::Punct(Mark::Comma),
    ]
}

/// The tokens without their lines.
pub open spec fn kinds(ts: Seq<(Tok, nat)>) -> Seq<Tok> {
    Seq::new(ts.len(), |i: int| ts[i].0)
}

/// The kinds of tokens in `cnf(name, role, f).`.
pub open spec fn plain_kinds(name: Seq<char>, role: Seq<char>, f: Seq<Tok>) -> Seq<Tok> {
    header_kinds(name, role) + f + seq![Tok::Punct(Mark::RParen), Tok::Punct(Mark::Dot)]
}

/// The kinds of tokens in `cnf(name, role, (f)).`.
pub open spec fn wrapped_kinds(name: Seq<char>, role: Seq<char>, f: Seq<Tok>) -> Seq<Tok> {
    header_kinds(name, role) + seq![Tok::Punct(Mark::LParen)] + f + seq![
        Tok::Punct(Mark::RParen),
        Tok::Punct(Mark::RParen),
        Tok::Punct(Mark::Dot),
    ]
}

proof fn lemma_header(ts: Seq<(Tok, nat)>, name: Seq<char>, role: Seq<char>)
    requires
        ts.len() >= 6,
        kinds(ts).take(6) == header_kinds(name, role),
    ensures
        header_at(ts, 0) == Ok::<nat, ErrorView>(6),
{
    let h = header_kinds(name, role);
    assert forall|i: int| 0 <= i < 6 implies (#[trigger] ts[i]).0 == h[i] by {
        assert(kinds(ts).take(6)[i] == ts[i].0);
    }
    assert(ts[0].0 == h[0] && ts[1].0 == h[1] && ts[2].0 == h[2]);
    assert(ts[3].0 == h[3] && ts[4].0 == h[4] && ts[5].0 == h[5]);
}

/// The tokens of one statement, with and without parentheses round its
/// formula, give the same.
proof fn lemma_wrapped(
    ts: Seq<(Tok, nat)>,
    us: Seq<(Tok, nat)>,
    n: Seq<char>,
    r: Seq<char>,
    m: Seq<char>,
    s: Seq<char>,
    f: Seq<Tok>,
    kn: Known,
)
    requires
        kinds(ts) == plain_kinds(n, r, f),
        kinds(us) == wrapped_kinds(m, s, f),
        f.len() > 0 ==> f[0] != Tok::Punct(Mark::LParen),
        statements_at(ts, 0, kn).0 matches Ok(cs) && cs.len() == 1,
    ensures
        statements_at(us, 0, kn) == statements_at(ts, 0, kn),
        statements_at(ts, 0, kn).0 matches Ok(cs) && cs[0].len() == 1 + bars(
            ts,
            6,
            (6 + f.len()) as nat,
        ),
{
    let hi = 6 + f.len() as int;
    let sc = kn.scope();
    assert(kinds(ts).len() == ts.len() && kinds(us).len() == us.len());
    assert(ts.len() == hi + 2 && us.len() == hi + 4);
    assert(kinds(ts).take(6) =~= header_kinds(n, r));
    assert(kinds(us).take(6) =~= header_kinds(m, s));
    lemma_header(ts, n, r);
    lemma_header(us, m, s);
    assert forall|k: int| 0 <= k < ts.len() implies (#[trigger] ts[k]).0 == kinds(ts)[k] by {}
    assert forall|k: int| 0 <= k < us.len() implies (#[trigger] us[k]).0 == kinds(us)[k] by {}
    assert(alike(ts, us, 6, hi, 1)) by {
        assert forall|k: int| 6 <= k <= hi implies (#[trigger] ts[k]).0 == us[k + 1].0 by {
            assert(ts[k].0 == plain_kinds(n, r, f)[k]);
            assert(us[k + 1].0 == wrapped_kinds(m, s, f)[k + 1]);
        }
    }
    assert(ts[hi].0 == plain_kinds(n, r, f)[hi]);
    assert(us[6].0 == wrapped_kinds(m, s, f)[6]);
    assert(us[hi + 1].0 == wrapped_kinds(m, s, f)[hi + 1]);
    assert(us[hi + 2].0 == wrapped_kinds(m, s, f)[hi + 2]);
    assert(us[hi + 3].0 == wrapped_kinds(m, s, f)[hi + 3]);
    assert(!is_mark(ts, 6, Mark::LParen)) by {
        assert(ts[6].0 == plain_kinds(n, r, f)[6]);
    }
    lemma_only_statement(ts, kn);
    let (c, p) = statement_at(ts, 0, kn).0->Ok_0;
    let kn1 = statement_at(ts, 0, kn).1;
    lemma_literals_at(ts, 6, sc);
    assert(formula_at(ts, 6, sc) == literals_at(ts, 6, sc));
    assert(literals_at(ts, 6, sc).0 is Ok);
    assert(literals_at(ts, 6, sc).0->Ok_0.1 == hi);
    lemma_alike_literals(ts, us, 6, hi, 1, 6, sc);
    lemma_literals_bars(ts, 6, sc);
    lemma_wrapped_statement(us, kn, c, kn1, hi as nat);
}

proof fn lemma_only_statement(ts: Seq<(Tok, nat)>, kn: Known)
    requires
        ts.len() > 0,
        statements_at(ts, 0, kn).0 matches Ok(cs) && cs.len() == 1,
    ensures
        statement_at(ts, 0, kn).0 matches Ok((c, p)) && p == ts.len() && statements_at(ts, 0, kn)
            == (Ok::<Seq<Seq<Lit>>, ErrorView>(seq![c]), statement_at(ts, 0, kn).1),
{
    lemma_statement_at(ts, 0, kn);
    if let (Ok((c, p)), kn1) = statement_at(ts, 0, kn) {
        if p < ts.len() {
            // A second statement would be a second clause.
            lemma_statement_at(ts, p, kn1);
            if let (Ok((_, p2)), kn2) = statement_at(ts, p, kn1) {
                if let (Ok(cs2), _) = statements_at(ts, p2, kn2) {
                    assert(statements_at(ts, p, kn1).0->Ok_0.len() == 1 + cs2.len());
                }
            }
        }
        assert(statements_at(ts, p, kn1) == (
            Ok::<Seq<Seq<Lit>>, ErrorView>(Seq::empty()),
            kn1,
        ));
        assert(seq![c] + Seq::<Seq<Lit>>::empty() =~= seq![c]);
    }
}

proof fn lemma_wrapped_statement(
    us: Seq<(Tok, nat)>,
    kn: Known,
    c: Seq<Lit>,
    kn1: Known,
    hi: nat,
)
    requires
        us.len() == hi + 4,
        header_at(us, 0) == Ok::<nat, ErrorView>(6),
        is_mark(us, 6, Mark::LParen),
        literals_at(us, 7, kn.scope()).0 == Ok::<(Seq<Lit>, nat), ErrorView>((c, hi + 1)),
        literals_at(us, 7, kn.scope()).1.known() == kn1,
        is_mark(us, hi + 1, Mark::RParen),
        is_mark(us, hi + 2, Mark::RParen),
        is_mark(us, hi + 3, Mark::Dot),
    ensures
        statements_at(us, 0, kn) == (Ok::<Seq<Seq<Lit>>, ErrorView>(seq![c]), kn1),
{
    assert(statement_at(us, 0, kn) == (Ok::<(Seq<Lit>, nat), ErrorView>((c, hi + 4)), kn1));
    assert(statements_at(us, hi + 4, kn1) == (
        Ok::<Seq<Seq<Lit>>, ErrorView>(Seq::empty()),
        kn1,
    ));
    assert(seq![c] + Seq::<Seq<Lit>>::empty() =~= seq![c]);
}

/// Whether a text is one unquoted name.
pub open spec fn is_name(n: Seq<char>) -> bool {
    &&& n.len() > 0
    &&& n[0] != '/'
    &&& forall|k: nat| k < n.len() ==> !ends_ident(#[trigger] n[k as int]) && !comment_begins(n, k)
}

/// The text `cnf(name, role, f).`.
pub open spec fn plain_text(name: Seq<char>, role: Seq<char>, f: Seq<char>) -> Seq<char> {
    "cnf("@ + name + ", "@ + role + ", "@ + f + ")."@
}

/// The text `cnf(name, role, (f)).`.
pub open spec fn wrapped_text(name: Seq<char>, role: Seq<char>, f: Seq<char>) -> Seq<char> {
    "cnf("@ + name + ", "@ + role + ", "@ + ("("@ + f + "))."@)
}

/// Whether a text reads the same where a parenthesis follows it: it has no
/// error, and does not end in a comment.
pub open spec fn closes_well(f: Seq<char>) -> bool {
    match (scan(f, 0, 1), scan(f + ")"@, 0, 1)) {
        (Ok(ts), Ok(us)) => us.len() == ts.len() + 1,
        _ => false,
    }
}

/// Whether `x` stands in `y` at `d`, with a closing parenthesis after it.
spec fn stands_in(x: Seq<char>, y: Seq<char>, d: nat) -> bool {
    &&& d + x.len() < y.len()
    &&& y[(d + x.len()) as int] == ')'
    &&& forall|k: int| 0 <= k < x.len() ==> #[trigger] x[k] == y[k + d]
}

proof fn lemma_line_end_in(x: Seq<char>, y: Seq<char>, d: nat, i: nat)
    requires
        stands_in(x, y, d),
        i <= x.len(),
    ensures
        line_end(x, i) < x.len() ==> line_end(y, i + d) == line_end(x, i) + d,
        line_end(x, i) == x.len() ==> line_end(y, i + d) > x.len() + d,
    decreases x.len() - i,
{
    lemma_line_end(x, i);
    if i < x.len() {
        assert(x[i as int] == y[(i + d) as int]);
        if x[i as int] != '\n' {
            lemma_line_end_in(x, y, d, i + 1);
        }
    } else {
        lemma_line_end(y, (i + d + 1) as nat);
    }
}

proof fn lemma_comment_begins_in(x: Seq<char>, y: Seq<char>, d: nat, i: nat)
    requires
        stands_in(x, y, d),
        i <= x.len(),
    ensures
        comment_begins(x, i) == comment_begins(y, i + d),
{
    if i < x.len() {
        assert(x[i as int] == y[(i + d) as int]);
        if i + 1 < x.len() {
            assert(x[(i + 1) as int] == y[(i + 1 + d) as int]);
        }
    }
}

proof fn lemma_ident_end_in(x: Seq<char>, y: Seq<char>, d: nat, i: nat)
    requires
        stands_in(x, y, d),
        i <= x.len(),
    ensures
        ident_end(y, i + d) == ident_end(x, i) + d,
    decreases x.len() - i,
{
    lemma_comment_begins_in(x, y, d, i);
    if i < x.len() {
        assert(x[i as int] == y[(i + d) as int]);
        if !ends_ident(x[i as int]) && !comment_begins(x, i) {
            lemma_ident_end_in(x, y, d, i + 1);
        }
    }
}

proof fn lemma_quote_end_in(x: Seq<char>, y: Seq<char>, d: nat, i: nat)
    requires
        stands_in(x, y, d),
        i <= x.len(),
        quote_end(x, i) < x.len(),
    ensures
        quote_end(y, i + d) == quote_end(x, i) + d,
    decreases x.len() - i,
{
    if i < x.len() {
        assert(x[i as int] == y[(i + d) as int]);
        if x[i as int] != '\'' && x[i as int] != '\n' {
            lemma_quote_end_in(x, y, d, i + 1);
        }
    }
}

proof fn lemma_comment_end_in(x: Seq<char>, y: Seq<char>, d: nat, i: nat)
    requires
        stands_in(x, y, d),
        comment_end(x, i) is Some,
    ensures
        comment_end(y, i + d) == Some((comment_end(x, i)->Some_0 + d) as nat),
    decreases x.len() - i,
{
    assert(x[i as int] == y[(i + d) as int]);
    if i + 1 < x.len() {
        assert(x[(i + 1) as int] == y[(i + 1 + d) as int]);
    }
    if !(x[i as int] == '*' && i + 1 < x.len() && x[(i + 1) as int] == '/') {
        lemma_comment_end_in(x, y, d, i + 1);
    }
}

proof fn lemma_breaks_in(x: Seq<char>, y: Seq<char>, d: nat, i: nat, j: nat)
    requires
        stands_in(x, y, d),
        j <= x.len(),
    ensures
        breaks(y, i + d, j + d) == breaks(x, i, j),
    decreases j - i,
{
    if i < j {
        assert(x[i as int] == y[(i + d) as int]);
        lemma_breaks_in(x, y, d, i + 1, j);
    }
}

proof fn lemma_joined_cons(
    t: (Tok, nat),
    a: Seq<(Tok, nat)>,
    rest: Result<Seq<(Tok, nat)>, ErrorView>,
)
    ensures
        cons(t, joined(a, rest)) == joined(seq![t] + a, rest),
{
    if let Ok(ts) = rest {
        assert(seq![t] + (a + ts) =~= (seq![t] + a) + ts);
    }
}

/// What stands at `i`: a token or none, the position after it, and the line
/// there.
pub(crate) open spec fn lexeme(s: Seq<char>, i: nat, line: nat) -> Result<(Option<Tok>, nat, nat), ErrorView> {
    let c = s[i as int];
    if c == ' ' || c == '\t' || c == '\r' {
        Ok((None, i + 1, line))
    } else if c == '\n' {
        Ok((None, i + 1, line + 1))
    } else if c == '%' {
        Ok((None, line_end(s, i + 1), line))
    } else if c == '/' {
        if i + 1 < s.len() && s[(i + 1) as int] == '*' {
            match comment_end(s, i + 2) {
                Some(e) => Ok((None, e, line + breaks(s, i + 2, e))),
                None => Err(error_at(line, "block comment '/*' doesn't close with '*/'"@)),
            }
        } else {
            Err(error_at(line, "'/' unexpected out of scope"@))
        }
    } else if mark_of(c) is Some {
        Ok((Some(Tok::Punct(mark_of(c)->Some_0)), i + 1, line))
    } else if c == '!' {
        if i + 1 < s.len() && s[(i + 1) as int] == '=' {
            Ok((Some(Tok::Punct(Mark::NotEquals)), i + 2, line))
        } else {
            Err(error_at(line, "'!' unexpected (only known part of '!=')"@))
        }
    } else if c == '\'' {
        let e = quote_end(s, i + 1);
        if e >= s.len() {
            Err(error_at(line, "tanda kutip tunggal tidak ditutup sebelum EOF"@))
        } else if s[e as int] == '\n' {
            Err(error_at(line, "tanda kutip tunggal tidak ditutup sebelum akhir baris"@))
        } else {
            Ok((Some(Tok::Ident(s.subrange((i + 1) as int, e as int))), e + 1, line))
        }
    } else if white_space(c) {
        Err(error_at(line, "karakter tidak dikenal: '"@ + seq![c] + "'"@))
    } else {
        let e = ident_end(s, i + 1);
        Ok((Some(Tok::Ident(s.subrange(i as int, e as int))), e, line))
    }
}

/// Reading goes from one token to the next.
pub(crate) proof fn lemma_scan_step(s: Seq<char>, i: nat, line: nat)
    requires
        i < s.len(),
    ensures
        match lexeme(s, i, line) {
            Err(er) => scan(s, i, line) == Err::<Seq<(Tok, nat)>, ErrorView>(er),
            Ok((t, e, l)) => i < e <= s.len() && scan(s, i, line) == match t {
                Some(k) => cons((k, line), scan(s, e, l)),
                None => scan(s, e, l),
            },
        },
{
    lemma_line_end(s, i + 1);
    lemma_comment_end(s, i + 2);
    lemma_quote_end(s, i + 1);
    lemma_ident_end(s, i + 1);
}

/// A token inside a larger text is the same, but for a comment that the text
/// ends in.
proof fn lemma_lexeme_in(x: Seq<char>, y: Seq<char>, d: nat, i: nat, line: nat)
    requires
        stands_in(x, y, d),
        i < x.len(),
        lexeme(x, i, line) is Ok,
    ensures
        ({
            let (t, e, l) = lexeme(x, i, line)->Ok_0;
            if x[i as int] == '%' && e == x.len() {
                &&& lexeme(y, i + d, line) matches Ok((t2, e2, _))
                &&& t2 is None
                &&& e2 > x.len() + d
            } else {
                lexeme(y, i + d, line) == Ok::<(Option<Tok>, nat, nat), ErrorView>((t, e + d, l))
            }
        }),
{
    let c = x[i as int];
    assert(y[(i + d) as int] == c);
    if i + 1 < x.len() {
        assert(x[(i + 1) as int] == y[(i + 1 + d) as int]);
    }
    if c == ' ' || c == '\t' || c == '\r' || c == '\n' {
    } else if c == '%' {
        lemma_line_end(x, i + 1);
        lemma_line_end_in(x, y, d, i + 1);
    } else if c == '/' {
        let e = comment_end(x, i + 2)->Some_0;
        lemma_comment_end(x, i + 2);
        lemma_comment_end_in(x, y, d, i + 2);
        lemma_breaks_in(x, y, d, i + 2, e);
    } else if mark_of(c) is Some || c == '!' {
    } else if c == '\'' {
        let e = quote_end(x, i + 1);
        lemma_quote_end(x, i + 1);
        lemma_quote_end_in(x, y, d, i + 1);
        assert(x[e as int] == y[(e + d) as int]);
        assert(x.subrange((i + 1) as int, e as int) =~= y.subrange(
            (i + d + 1) as int,
            (e + d) as int,
        ));
    } else {
        let e = ident_end(x, i + 1);
        lemma_ident_end(x, i + 1);
        lemma_ident_end_in(x, y, d, i + 1);
        assert(x.subrange(i as int, e as int) =~= y.subrange((i + d) as int, (e + d) as int));
    }
}

/// A text that closes well is read in the same way inside a larger one.
proof fn lemma_scan_in(f: Seq<char>, s: Seq<char>, d: nat, i: nat, line: nat) -> (last: nat)
    requires
        stands_in(f, s, d),
        i <= f.len(),
        scan(f, i, line) matches Ok(a) && scan(f + ")"@, i, line) matches Ok(b) && b.len()
            == a.len() + 1,
    ensures
        scan(f, i, line) matches Ok(a) && scan(s, i + d, line) == joined(
            a,
            scan(s, f.len() + d, last),
        ),
    decreases f.len() - i,
{
    reveal_strlit(")");
    let g = f + ")"@;
    assert(stands_in(f, g, 0));
    if i == f.len() {
        if let Ok(ts) = scan(s, i + d, line) {
            assert(Seq::<(Tok, nat)>::empty() + ts =~= ts);
        }
        line
    } else {
        lemma_scan_step(f, i, line);
        lemma_scan_step(g, i, line);
        lemma_scan_step(s, i + d, line);
        lemma_lexeme_in(f, g, 0, i, line);
        lemma_lexeme_in(f, s, d, i, line);
        let (t, e, l) = lexeme(f, i, line)->Ok_0;
        let (_, e2, l2) = lexeme(g, i, line)->Ok_0;
        if e2 > f.len() {
            assert(scan(g, e2, l2) == Ok::<Seq<(Tok, nat)>, ErrorView>(Seq::empty()));
            line
        } else {
            let last = lemma_scan_in(f, s, d, e, l);
            if let Some(k) = t {
                lemma_joined_cons((k, line), scan(f, e, l)->Ok_0, scan(s, f.len() + d, last));
            }
            last
        }
    }
}

proof fn lemma_ident_end_at(s: Seq<char>, i: nat, e: nat)
    requires
        i <= e < s.len(),
        forall|k: nat|
            i <= k < e ==> !ends_ident(#[trigger] s[k as int]) && !comment_begins(s, k),
        ends_ident(s[e as int]),
    ensures
        ident_end(s, i) == e,
    decreases e - i,
{
    if i < e {
        assert(!ends_ident(s[i as int]) && !comment_begins(s, i));
        lemma_ident_end_at(s, i + 1, e);
    }
}

/// A name before a character that ends it is one token.
proof fn lemma_name_in(n: Seq<char>, s: Seq<char>, d: nat, line: nat)
    requires
        is_name(n),
        d + n.len() < s.len(),
        s[(d + n.len()) as int] == '(' || s[(d + n.len()) as int] == ',',
        forall|k: int| 0 <= k < n.len() ==> #[trigger] n[k] == s[k + d],
    ensures
        scan(s, d, line) == cons((Tok::Ident(n), line), scan(s, d + n.len(), line)),
{
    let e = d + n.len();
    assert forall|k: nat| d <= k < e implies !ends_ident(#[trigger] s[k as int])
        && !comment_begins(s, k) by {
        let j = (k - d) as nat;
        assert(n[j as int] == s[k as int]);
        assert(!comment_begins(n, j));
        if j + 1 < n.len() {
            assert(n[(j + 1) as int] == s[(k + 1) as int]);
        }
    }
    assert(n[0] == s[d as int]);
    lemma_ident_end_at(s, d + 1, e);
    assert(s.subrange(d as int, e as int) =~= n);
    lemma_scan_step(s, d, line);
}

/// The tokens of `cnf(name, role, ` at the start of a text.
proof fn lemma_header_text(
    s: Seq<char>,
    n: Seq<char>,
    r: Seq<char>,
    rest: Seq<char>,
) -> (h: Seq<(Tok, nat)>)
    requires
        is_name(n),
        is_name(r),
        s == "cnf("@ + n + ", "@ + r + ", "@ + rest,
    ensures
        kinds(h) == header_kinds(n, r),
        scan(s, 0, 1) == joined(h, scan(s, n.len() + r.len() + 8, 1)),
{
    reveal_strlit("cnf(");
    reveal_strlit("cnf");
    reveal_strlit(", ");
    let a = n.len();
    let b = r.len();
    let cnf = "cnf"@;
    assert(is_name(cnf));
    assert(s[3] == '(');
    lemma_name_in(cnf, s, 0, 1);
    lemma_scan_step(s, 3, 1);
    assert(forall|k: int| 0 <= k < a ==> #[trigger] n[k] == s[k + 4]);
    assert(s[(a + 4) as int] == ',' && s[(a + 5) as int] == ' ');
    lemma_name_in(n, s, 4, 1);
    lemma_scan_step(s, a + 4, 1);
    lemma_scan_step(s, a + 5, 1);
    assert(forall|k: int| 0 <= k < b ==> #[trigger] r[k] == s[k + (a + 6)]);
    assert(s[(a + b + 6) as int] == ',' && s[(a + b + 7) as int] == ' ');
    lemma_name_in(r, s, a + 6, 1);
    lemma_scan_step(s, a + b + 6, 1);
    lemma_scan_step(s, a + b + 7, 1);
    let open = (Tok::Punct(Mark::LParen), 1nat);
    let comma = (Tok::Punct(Mark::Comma), 1nat);
    let h = seq![
        (Tok::Ident(cnf), 1nat),
        open,
        (Tok::Ident(n), 1nat),
        comma,
        (Tok::Ident(r), 1nat),
        comma,
    ];
    let tail = scan(s, a + b + 8, 1);
    if let Ok(ts) = tail {
        assert(h + ts =~= seq![h[0]] + (seq![h[1]] + (seq![h[2]] + (seq![h[3]] + (seq![h[4]] + (
        seq![h[5]] + ts))))));
    }
    assert(kinds(h) =~= header_kinds(n, r));
    h
}

proof fn lemma_plain_text(n: Seq<char>, r: Seq<char>, f: Seq<char>) -> (ts: Seq<(Tok, nat)>)
    requires
        is_name(n),
        is_name(r),
        closes_well(f),
    ensures
        scan(plain_text(n, r, f), 0, 1) == Ok::<Seq<(Tok, nat)>, ErrorView>(ts),
        kinds(ts) == plain_kinds(n, r, kinds(scan(f, 0, 1)->Ok_0)),
{
    reveal_strlit("cnf(");
    reveal_strlit(", ");
    reveal_strlit(").");
    let s = plain_text(n, r, f);
    let d = n.len() + r.len() + 8;
    assert(s =~= "cnf("@ + n + ", "@ + r + ", "@ + (f + ")."@));
    let h = lemma_header_text(s, n, r, f + ")."@);
    assert(stands_in(f, s, d));
    let last = lemma_scan_in(f, s, d, 0, 1);
    let end = f.len() + d;
    assert(s[end as int] == ')' && s[(end + 1) as int] == '.');
    lemma_scan_step(s, end, last);
    lemma_scan_step(s, end + 1, last);
    let fs = scan(f, 0, 1)->Ok_0;
    let tail = seq![(Tok::Punct(Mark::RParen), last), (Tok::Punct(Mark::Dot), last)];
    assert(scan(s, end + 2, last) == Ok::<Seq<(Tok, nat)>, ErrorView>(Seq::empty()));
    assert(seq![tail[0]] + (seq![tail[1]] + Seq::<(Tok, nat)>::empty()) =~= tail);
    let ts = h + (fs + tail);
    assert(scan(s, 0, 1)->Ok_0 =~= ts);
    assert(kinds(ts) =~= header_kinds(n, r) + kinds(fs) + seq![
        Tok::Punct(Mark::RParen),
        Tok::Punct(Mark::Dot),
    ]) by {
        assert(kinds(h).len() == h.len());
        assert forall|k: int| 0 <= k < 6 implies (#[trigger] h[k]).0 == header_kinds(n, r)[k] by {
            assert(kinds(h)[k] == h[k].0);
        }
    }
    ts
}

proof fn lemma_wrapped_text(n: Seq<char>, r: Seq<char>, f: Seq<char>) -> (ts: Seq<(Tok, nat)>)
    requires
        is_name(n),
        is_name(r),
        closes_well(f),
    ensures
        scan(wrapped_text(n, r, f), 0, 1) == Ok::<Seq<(Tok, nat)>, ErrorView>(ts),
        kinds(ts) == wrapped_kinds(n, r, kinds(scan(f, 0, 1)->Ok_0)),
{
    reveal_strlit("cnf(");
    reveal_strlit(", ");
    reveal_strlit("(");
    reveal_strlit(")).");
    let s = wrapped_text(n, r, f);
    let d = n.len() + r.len() + 8;
    let h = lemma_header_text(s, n, r, "("@ + f + "))."@);
    assert(s[d as int] == '(');
    lemma_scan_step(s, d, 1);
    assert(stands_in(f, s, d + 1));
    let last = lemma_scan_in(f, s, d + 1, 0, 1);
    let end = f.len() + d + 1;
    assert(s[end as int] == ')' && s[(end + 1) as int] == ')' && s[(end + 2) as int] == '.');
    lemma_scan_step(s, end, last);
    lemma_scan_step(s, end + 1, last);
    lemma_scan_step(s, end + 2, last);
    let fs = scan(f, 0, 1)->Ok_0;
    let open = seq![(Tok::Punct(Mark::LParen), 1nat)];
    let tail = seq![
        (Tok::Punct(Mark::RParen), last),
        (Tok::Punct(Mark::RParen), last),
        (Tok::Punct(Mark::Dot), last),
    ];
    assert(scan(s, end + 3, last) == Ok::<Seq<(Tok, nat)>, ErrorView>(Seq::empty()));
    assert(seq![tail[0]] + (seq![tail[1]] + (seq![tail[2]] + Seq::<(Tok, nat)>::empty())) =~= tail);
    let ts = h + (open + (fs + tail));
    assert(scan(s, 0, 1)->Ok_0 =~= ts);
    assert(kinds(ts) =~= header_kinds(n, r) + seq![Tok::Punct(Mark::LParen)] + kinds(fs) + seq![
        Tok::Punct(Mark::RParen),
        Tok::Punct(Mark::RParen),
        Tok::Punct(Mark::Dot),
    ]) by {
        assert(kinds(h).len() == h.len());
        assert forall|k: int| 0 <= k < 6 implies (#[trigger] h[k]).0 == header_kinds(n, r)[k] by {
            assert(kinds(h)[k] == h[k].0);
        }
    }
    ts
}

/// Number of bars among the tokens of a text.
pub open spec fn text_bars(f: Seq<char>) -> nat {
    let ts = scan(f, 0, 1)->Ok_0;
    bars(ts, 0, ts.len())
}

proof fn lemma_bars_alike(ts: Seq<(Tok, nat)>, us: Seq<(Tok, nat)>, d: nat, lo: nat, hi: nat)
    requires
        hi <= us.len(),
        hi + d <= ts.len(),
        forall|k: int| 0 <= k < hi ==> (#[trigger] us[k]).0 == ts[k + d].0,
    ensures
        bars(ts, lo + d, hi + d) == bars(us, lo, hi),
    decreases hi - lo,
{
    if lo < hi {
        assert(us[lo as int].0 == ts[(lo + d) as int].0);
        lemma_bars_alike(ts, us, d, lo + 1, hi);
    }
}

/// The name and the role of a statement and one layer of parentheses round its
/// formula have no effect on what is read: not on the clause, nor on the
/// symbols, nor on the terms. The clause has one literal more than the formula
/// has bars, so it is not empty.
pub proof fn name_role_and_parentheses_have_no_effect(
    n: Seq<char>,
    r: Seq<char>,
    m: Seq<char>,
    s: Seq<char>,
    f: Seq<char>,
    kn: Known,
)
    requires
        is_name(n),
        is_name(r),
        is_name(m),
        is_name(s),
        closes_well(f),
        !is_mark(scan(f, 0, 1)->Ok_0, 0, Mark::LParen),
        tptp_problem_of(plain_text(n, r, f), kn).0 matches Ok(cs) && cs.len() == 1,
    ensures
        tptp_problem_of(wrapped_text(m, s, f), kn) == tptp_problem_of(plain_text(n, r, f), kn),
        tptp_problem_of(plain_text(n, r, f), kn).0 matches Ok(cs) && cs[0].len() == 1 + text_bars(
            f,
        ),
{
    let ts = lemma_plain_text(n, r, f);
    let us = lemma_wrapped_text(m, s, f);
    let fs = scan(f, 0, 1)->Ok_0;
    let kf = kinds(fs);
    if kf.len() > 0 {
        assert(kf[0] == fs[0].0);
    }
    lemma_wrapped(ts, us, n, r, m, s, kf, kn);
    assert(kinds(ts).len() == ts.len());
    assert forall|k: int| 0 <= k < fs.len() implies (#[trigger] fs[k]).0 == ts[k + 6].0 by {
        assert(kinds(ts)[k + 6] == ts[k + 6].0);
        assert(plain_kinds(n, r, kf)[k + 6] == kf[k]);
    }
    lemma_bars_alike(ts, fs, 6, 0, fs.len());
}

// ---------------------------------------------------------------------------
// Reading.
// ---------------------------------------------------------------------------
fn mark_name(m: Mark) -> (r: &'static str)
    ensures
        r@ == mark_text(m),
{
    match m {
        Mark::LParen => "LParen",
        Mark::RParen => "RParen",
        Mark::Comma => "Comma",
        Mark::Dot => "Dot",
        Mark::Pipe => "Pipe",
        Mark::Tilde => "Tilde",
        Mark::Equals => "Equals",
        Mark::NotEquals => "NotEquals",
    }
}

fn peek_is(tokens: &Vec<(Token, usize)>, pos: usize, m: Mark) -> (r: bool)
    ensures
        r == is_mark(toks(tokens@), pos as nat, m),
{
    if pos < tokens.len() {
        assert(toks(tokens@)[pos as int].0 == tok(tokens@[pos as int].0));
        match &tokens[pos].0 {
            Token::Punct(k) => *k == m,
            Token::Ident(_) => false,
        }
    } else {
        false
    }
}

fn peek_line(tokens: &Vec<(Token, usize)>, pos: usize) -> (r: usize)
    ensures
        r == line_at(toks(tokens@), pos as nat),
{
    if pos < tokens.len() {
        tokens[pos].1
    } else if tokens.len() > 0 {
        tokens[tokens.len() - 1].1
    } else {
        0
    }
}

fn equality_unsupported(tokens: &Vec<(Token, usize)>, pos: usize) -> (r: ParseError)
    ensures
        r@ == equality_error(toks(tokens@), pos as nat),
{
    ParseError::new(
        peek_line(tokens, pos),
        "literal equality ('=' / '!=') belum didukung — Bear belum punya paramodulation",
    )
}

fn unexpected_token(tokens: &Vec<(Token, usize)>, pos: usize, what: &str) -> (r: ParseError)
    ensures
        r@ == unexpected(toks(tokens@), pos as nat, what@),
{
    let ghost ts = toks(tokens@);
    let mut message = String::new();
    message.append("diharapkan ");
    message.append(what);
    if pos < tokens.len() {
        assert(ts[pos as int] == (tok(tokens@[pos as int].0), tokens@[pos as int].1 as nat));
        message.append(", ditemukan ");
        match &tokens[pos].0 {
            Token::Punct(m) => {
                message.append(mark_name(*m));
            },
            Token::Ident(name) => {
                message.append("Ident(");
                message.append(debug_string(name.as_str()).as_str());
                message.append(")");
            },
        }
        assert(message@ =~= "diharapkan "@ + what@ + ", ditemukan "@ + tok_text(ts[pos as int].0));
    } else {
        message.append(", tapi EOF");
    }
    ParseError { line: peek_line(tokens, pos), message }
}

fn expect(tokens: &Vec<(Token, usize)>, pos: usize, m: Mark, what: &str) -> (r: Result<
    usize,
    ParseError,
>)
    ensures
        match r {
            Ok(p) => expect_at(toks(tokens@), pos as nat, m, what@) == Ok::<nat, ErrorView>(
                p as nat,
            ) && p <= tokens@.len(),
            Err(e) => expect_at(toks(tokens@), pos as nat, m, what@) == Err::<nat, ErrorView>(e@),
        },
{
    assert(tokens.len() == tokens@.len());
    if peek_is(tokens, pos, m) {
        Ok(pos + 1)
    } else {
        Err(unexpected_token(tokens, pos, what))
    }
}

fn expect_ident<'a>(tokens: &'a Vec<(Token, usize)>, pos: usize, what: &str) -> (r: Result<
    &'a String,
    ParseError,
>)
    ensures
        match r {
            Ok(name) => name_at(toks(tokens@), pos as nat, what@) == Ok::<Seq<char>, ErrorView>(
                name@,
            ) && pos < tokens@.len(),
            Err(e) => name_at(toks(tokens@), pos as nat, what@) == Err::<Seq<char>, ErrorView>(e@),
        },
{
    if pos < tokens.len() {
        assert(toks(tokens@)[pos as int].0 == tok(tokens@[pos as int].0));
        if let Token::Ident(name) = &tokens[pos].0 {
            return Ok(name);
        }
    }
    Err(unexpected_token(tokens, pos, what))
}

/// Builds the term at `pos`.
#[verifier::rlimit(60)]
fn parse_term(
    tokens: &Vec<(Token, usize)>,
    pos: usize,
    arena: &mut TermArena,
    symbols: &mut SymbolTable,
    vars: &mut SymbolTable,
) -> (r: Result<(TermId, usize), ParseError>)
    requires
        pos <= tokens@.len(),
        old(arena).wf(),
        old(symbols).wf(),
        old(vars).wf(),
        term_at(
            toks(tokens@),
            pos as nat,
            scope(old(symbols), old(vars), old(arena)),
        ).1.in_range(),
    ensures
        final(arena).wf(),
        final(symbols).wf(),
        final(vars).wf(),
        final(arena).extends(old(arena)),
        scope(final(symbols), final(vars), final(arena)) == term_at(
            toks(tokens@),
            pos as nat,
            scope(old(symbols), old(vars), old(arena)),
        ).1,
        ({
            let out = term_at(
                toks(tokens@),
                pos as nat,
                scope(old(symbols), old(vars), old(arena)),
            ).0;
            match r {
                Ok((id, end)) => {
                    &&& pos < end <= tokens@.len()
                    &&& final(arena).valid(id)
                    &&& out == Ok::<(Tree, nat), ErrorView>((final(arena).tree(id), end as nat))
                },
                Err(er) => {
                    &&& out == Err::<(Tree, nat), ErrorView>(er@)
                },
            }
        }),
    decreases tokens@.len() - pos, 0int,
{
    assert(tokens.len() == tokens@.len());
    let name: &String = match expect_ident(tokens, pos, "nama term") {
        Ok(name) => name,
        Err(er) => {
            return Err(er);
        },
    };
    if is_variable_name(name.as_str()) {
        let id: VarId = intern_in(vars, name.as_str());
        proof {
            arena.lemma_room_for_var(id);
        }
        return Ok((arena.mk_var(id), pos + 1));
    }
    if peek_is(tokens, pos + 1, Mark::LParen) {
        proof {
            let sc = scope(symbols, vars, arena);
            if let (Ok((args, _)), sc1) = args_at(toks(tokens@), (pos + 2) as nat, sc) {
                let done = with_symbol(sc1, name@, args);
                lemma_symbol_grows(sc1, name@, args);
                if done.in_range() {
                    lemma_in_range_before(sc1, done);
                }
            }
        }
        match parse_args(tokens, pos + 2, arena, symbols, vars) {
            Err(er) => Err(er),
            Ok((args, p)) => {
                match expect(tokens, p, Mark::RParen, "')' penutup argumen term") {
                    Err(er) => Err(er),
                    Ok(end) => {
                        let sym: SymbolId = intern_in(symbols, name.as_str());
                        proof {
                            arena.lemma_room_for_app(sym, args@);
                        }
                        let id: TermId = arena.mk_app(sym, args.as_slice());
                        Ok((id, end))
                    },
                }
            },
        }
    } else {
        let sym: SymbolId = intern_in(symbols, name.as_str());
        proof {
            assert(arena.trees(Seq::empty()) =~= Seq::<Tree>::empty());
            arena.lemma_room_for_app(sym, Seq::empty());
        }
        Ok((arena.mk_const(sym), pos + 1))
    }
}

/// Builds the terms from `pos` on with commas between them.
#[verifier::rlimit(60)]
fn parse_args(
    tokens: &Vec<(Token, usize)>,
    pos: usize,
    arena: &mut TermArena,
    symbols: &mut SymbolTable,
    vars: &mut SymbolTable,
) -> (r: Result<(Vec<TermId>, usize), ParseError>)
    requires
        pos <= tokens@.len(),
        old(arena).wf(),
        old(symbols).wf(),
        old(vars).wf(),
        args_at(
            toks(tokens@),
            pos as nat,
            scope(old(symbols), old(vars), old(arena)),
        ).1.in_range(),
    ensures
        final(arena).wf(),
        final(symbols).wf(),
        final(vars).wf(),
        final(arena).extends(old(arena)),
        scope(final(symbols), final(vars), final(arena)) == args_at(
            toks(tokens@),
            pos as nat,
            scope(old(symbols), old(vars), old(arena)),
        ).1,
        ({
            let out = args_at(
                toks(tokens@),
                pos as nat,
                scope(old(symbols), old(vars), old(arena)),
            ).0;
            match r {
                Ok((ids, end)) => {
                    &&& pos < end <= tokens@.len()
                    &&& final(arena).all_valid(ids@)
                    &&& out == Ok::<(Seq<Tree>, nat), ErrorView>(
                        (final(arena).trees(ids@), end as nat),
                    )
                },
                Err(er) => {
                    &&& out == Err::<(Seq<Tree>, nat), ErrorView>(er@)
                },
            }
        }),
    decreases tokens@.len() - pos, 1int,
{
    let ghost ts = toks(tokens@);
    let ghost goal = args_at(ts, pos as nat, scope(symbols, vars, arena));
    let mut ids: Vec<TermId> = Vec::new();
    let mut at: usize = pos;
    proof {
        if let (Ok((rest, end)), _) = goal {
            assert(arena.trees(ids@) + rest =~= rest);
        }
    }
    loop
        invariant
            old(arena).wf(),
            arena.wf(),
            symbols.wf(),
            vars.wf(),
            arena.extends(old(arena)),
            ts == toks(tokens@),
            goal == args_at(ts, pos as nat, scope(old(symbols), old(vars), old(arena))),
            goal.1.in_range(),
            pos <= at <= tokens@.len(),
            arena.all_valid(ids@),
            match args_at(ts, at as nat, scope(symbols, vars, arena)) {
                (Ok((rest, end)), sc) => goal == (
                    Ok::<(Seq<Tree>, nat), ErrorView>((arena.trees(ids@) + rest, end)),
                    sc,
                ),
                (Err(er), sc) => goal == (Err::<(Seq<Tree>, nat), ErrorView>(er), sc),
            },
        decreases tokens@.len() - at,
    {
        let ghost before = *arena;
        let ghost done = arena.trees(ids@);
        assert(tokens.len() == tokens@.len());
        proof {
            let sc = scope(symbols, vars, arena);
            lemma_term_at(ts, at as nat, sc);
            if let (Ok((_, p)), sc1) = term_at(ts, at as nat, sc) {
                if is_mark(ts, p, Mark::Comma) {
                    lemma_args_grow(ts, p + 1, sc1);
                    lemma_in_range_before(sc1, args_at(ts, p + 1, sc1).1);
                }
            }
        }
        match parse_term(tokens, at, arena, symbols, vars) {
            Err(er) => {
                assert(arena.extends(old(arena)));
                return Err(er);
            },
            Ok((id, next)) => {
                let ghost t = arena.tree(id);
                proof {
                    arena.lemma_extends_trees(&before, ids@);
                    assert(arena.extends(old(arena)));
                    assert(arena.trees(ids@.push(id)) =~= done.push(t));
                    assert(done + seq![t] =~= done.push(t));
                }
                ids.push(id);
                if !peek_is(tokens, next, Mark::Comma) {
                    return Ok((ids, next));
                }
                proof {
                    if let (Ok((rest, end)), _) = args_at(
                        ts,
                        (next + 1) as nat,
                        scope(symbols, vars, arena),
                    ) {
                        assert(done + (seq![t] + rest) =~= done.push(t) + rest);
                    }
                }
                at = next + 1;
            },
        }
    }
}

/// Builds the literal at `pos`.
#[verifier::rlimit(60)]
fn parse_literal(
    tokens: &Vec<(Token, usize)>,
    pos: usize,
    arena: &mut TermArena,
    symbols: &mut SymbolTable,
    vars: &mut SymbolTable,
) -> (r: Result<(Literal, usize), ParseError>)
    requires
        pos <= tokens@.len(),
        old(arena).wf(),
        old(symbols).wf(),
        old(vars).wf(),
        literal_at(
            toks(tokens@),
            pos as nat,
            scope(old(symbols), old(vars), old(arena)),
        ).1.in_range(),
    ensures
        final(arena).wf(),
        final(symbols).wf(),
        final(vars).wf(),
        final(arena).extends(old(arena)),
        scope(final(symbols), final(vars), final(arena)) == literal_at(
            toks(tokens@),
            pos as nat,
            scope(old(symbols), old(vars), old(arena)),
        ).1,
        ({
            let out = literal_at(
                toks(tokens@),
                pos as nat,
                scope(old(symbols), old(vars), old(arena)),
            ).0;
            match r {
                Ok((l, end)) => {
                    &&& pos < end <= tokens@.len()
                    &&& l@.valid(final(arena))
                    &&& out == Ok::<(Lit, nat), ErrorView>((l@.lit(final(arena)), end as nat))
                },
                Err(er) => {
                    &&& out == Err::<(Lit, nat), ErrorView>(er@)
                },
            }
        }),
{
    assert(tokens.len() == tokens@.len());
    let negated: bool = peek_is(tokens, pos, Mark::Tilde);
    let at: usize = if negated {
        pos + 1
    } else {
        pos
    };
    let line: usize = peek_line(tokens, at);
    let name: &String = match expect_ident(tokens, at, "nama predicate") {
        Ok(name) => name,
        Err(er) => {
            return Err(er);
        },
    };
    if is_variable_name(name.as_str()) {
        if peek_is(tokens, at + 1, Mark::Equals) || peek_is(tokens, at + 1, Mark::NotEquals) {
            return Err(equality_unsupported(tokens, at + 1));
        }
        return Err(variable_error(line, name, "predicate"));
    }
    let mut args: Vec<TermId> = Vec::new();
    let mut end: usize = at + 1;
    assert(arena.trees(args@) =~= Seq::empty());
    if peek_is(tokens, at + 1, Mark::LParen) {
        proof {
            let sc1 = args_at(toks(tokens@), (at + 2) as nat, scope(symbols, vars, arena)).1;
            lemma_with_name_grows(sc1, name@);
            if sc1.with_name(name@).in_range() {
                lemma_in_range_before(sc1, sc1.with_name(name@));
            }
        }
        match parse_args(tokens, at + 2, arena, symbols, vars) {
            Err(er) => {
                return Err(er);
            },
            Ok((found, p)) => {
                match expect(tokens, p, Mark::RParen, "')' penutup argumen predicate") {
                    Err(er) => {
                        return Err(er);
                    },
                    Ok(q) => {
                        args = found;
                        end = q;
                    },
                }
            },
        }
    }
    if peek_is(tokens, end, Mark::Equals) || peek_is(tokens, end, Mark::NotEquals) {
        return Err(equality_unsupported(tokens, end));
    }
    let predicate: SymbolId = intern_in(symbols, name.as_str());
    if negated {
        Ok((Literal::negative(predicate, args), end))
    } else {
        Ok((Literal::positive(predicate, args), end))
    }
}

/// Builds the literals from `pos` on with bars between them.
#[verifier::rlimit(60)]
fn parse_literals(
    tokens: &Vec<(Token, usize)>,
    pos: usize,
    arena: &mut TermArena,
    symbols: &mut SymbolTable,
    vars: &mut SymbolTable,
) -> (r: Result<(Vec<Literal>, usize), ParseError>)
    requires
        pos <= tokens@.len(),
        old(arena).wf(),
        old(symbols).wf(),
        old(vars).wf(),
        literals_at(
            toks(tokens@),
            pos as nat,
            scope(old(symbols), old(vars), old(arena)),
        ).1.in_range(),
    ensures
        final(arena).wf(),
        final(symbols).wf(),
        final(vars).wf(),
        final(arena).extends(old(arena)),
        scope(final(symbols), final(vars), final(arena)) == literals_at(
            toks(tokens@),
            pos as nat,
            scope(old(symbols), old(vars), old(arena)),
        ).1,
        ({
            let out = literals_at(
                toks(tokens@),
                pos as nat,
                scope(old(symbols), old(vars), old(arena)),
            ).0;
            match r {
                Ok((ls, end)) => {
                    &&& pos < end <= tokens@.len()
                    &&& lits_valid(views(ls@), final(arena))
                    &&& out == Ok::<(Seq<Lit>, nat), ErrorView>(
                        (lits(views(ls@), final(arena)), end as nat),
                    )
                },
                Err(er) => {
                    &&& out == Err::<(Seq<Lit>, nat), ErrorView>(er@)
                },
            }
        }),
{
    let ghost ts = toks(tokens@);
    let ghost goal = literals_at(ts, pos as nat, scope(symbols, vars, arena));
    let mut out: Vec<Literal> = Vec::new();
    let mut at: usize = pos;
    proof {
        assert(lits(views(out@), arena) =~= Seq::empty());
        if let (Ok((rest, end)), _) = goal {
            assert(lits(views(out@), arena) + rest =~= rest);
        }
    }
    loop
        invariant
            old(arena).wf(),
            arena.wf(),
            symbols.wf(),
            vars.wf(),
            arena.extends(old(arena)),
            ts == toks(tokens@),
            goal == literals_at(ts, pos as nat, scope(old(symbols), old(vars), old(arena))),
            goal.1.in_range(),
            pos <= at <= tokens@.len(),
            lits_valid(views(out@), arena),
            match literals_at(ts, at as nat, scope(symbols, vars, arena)) {
                (Ok((rest, end)), sc) => goal == (
                    Ok::<(Seq<Lit>, nat), ErrorView>((lits(views(out@), arena) + rest, end)),
                    sc,
                ),
                (Err(er), sc) => goal == (Err::<(Seq<Lit>, nat), ErrorView>(er), sc),
            },
        decreases tokens@.len() - at,
    {
        let ghost before = *arena;
        let ghost done = lits(views(out@), arena);
        assert(tokens.len() == tokens@.len());
        proof {
            let sc = scope(symbols, vars, arena);
            lemma_literal_at(ts, at as nat, sc);
            if let (Ok((_, p)), sc1) = literal_at(ts, at as nat, sc) {
                if is_mark(ts, p, Mark::Pipe) {
                    lemma_literals_grow(ts, p + 1, sc1);
                    lemma_in_range_before(sc1, literals_at(ts, p + 1, sc1).1);
                }
            }
        }
        match parse_literal(tokens, at, arena, symbols, vars) {
            Err(er) => {
                assert(arena.extends(old(arena)));
                return Err(er);
            },
            Ok((l, next)) => {
                let ghost t = l@.lit(arena);
                proof {
                    crate::clause::lemma_lits_extends(views(out@), &before, arena);
                    assert(arena.extends(old(arena)));
                    assert(views(out@.push(l)) =~= views(out@).push(l@));
                    assert(lits(views(out@).push(l@), arena) =~= done.push(t));
                    assert(done + seq![t] =~= done.push(t));
                }
                out.push(l);
                if !peek_is(tokens, next, Mark::Pipe) {
                    return Ok((out, next));
                }
                proof {
                    if let (Ok((rest, end)), _) = literals_at(
                        ts,
                        (next + 1) as nat,
                        scope(symbols, vars, arena),
                    ) {
                        assert(done + (seq![t] + rest) =~= done.push(t) + rest);
                    }
                }
                at = next + 1;
            },
        }
    }
}

/// Builds the formula at `pos`.
#[verifier::rlimit(60)]
fn parse_cnf_formula(
    tokens: &Vec<(Token, usize)>,
    pos: usize,
    arena: &mut TermArena,
    symbols: &mut SymbolTable,
    vars: &mut SymbolTable,
) -> (r: Result<(Vec<Literal>, usize), ParseError>)
    requires
        pos <= tokens@.len(),
        old(arena).wf(),
        old(symbols).wf(),
        old(vars).wf(),
        formula_at(
            toks(tokens@),
            pos as nat,
            scope(old(symbols), old(vars), old(arena)),
        ).1.in_range(),
    ensures
        final(arena).wf(),
        final(symbols).wf(),
        final(vars).wf(),
        final(arena).extends(old(arena)),
        scope(final(symbols), final(vars), final(arena)) == formula_at(
            toks(tokens@),
            pos as nat,
            scope(old(symbols), old(vars), old(arena)),
        ).1,
        ({
            let out = formula_at(
                toks(tokens@),
                pos as nat,
                scope(old(symbols), old(vars), old(arena)),
            ).0;
            match r {
                Ok((ls, end)) => {
                    &&& pos < end <= tokens@.len()
                    &&& lits_valid(views(ls@), final(arena))
                    &&& out == Ok::<(Seq<Lit>, nat), ErrorView>(
                        (lits(views(ls@), final(arena)), end as nat),
                    )
                },
                Err(er) => {
                    &&& out == Err::<(Seq<Lit>, nat), ErrorView>(er@)
                },
            }
        }),
{
    assert(tokens.len() == tokens@.len());
    if peek_is(tokens, pos, Mark::LParen) {
        match parse_literals(tokens, pos + 1, arena, symbols, vars) {
            Err(er) => Err(er),
            Ok((ls, p)) => {
                match expect(tokens, p, Mark::RParen, "')' penutup formula") {
                    Err(er) => Err(er),
                    Ok(end) => Ok((ls, end)),
                }
            },
        }
    } else {
        parse_literals(tokens, pos, arena, symbols, vars)
    }
}

/// Reads `cnf(name, role,`.
fn parse_header(tokens: &Vec<(Token, usize)>, pos: usize) -> (r: Result<usize, ParseError>)
    requires
        pos <= tokens@.len(),
    ensures
        match r {
            Ok(p) => header_at(toks(tokens@), pos as nat) == Ok::<nat, ErrorView>(p as nat) && pos
                < p <= tokens@.len(),
            Err(er) => header_at(toks(tokens@), pos as nat) == Err::<nat, ErrorView>(er@),
        },
{
    assert(tokens.len() == tokens@.len());
    let line: usize = peek_line(tokens, pos);
    match expect_ident(tokens, pos, "'cnf'") {
        Err(er) => {
            return Err(er);
        },
        Ok(keyword) => {
            if !is_word(keyword, "cnf") {
                let mut message = String::new();
                message.append("diharapkan 'cnf(...)', ditemukan '");
                message.append(keyword.as_str());
                message.append("(...)'");
                return Err(ParseError { line, message });
            }
        },
    }
    match expect(tokens, pos + 1, Mark::LParen, "'(' setelah 'cnf'") {
        Err(er) => {
            return Err(er);
        },
        Ok(_) => {},
    }
    match expect_ident(tokens, pos + 2, "nama clause") {
        Err(er) => {
            return Err(er);
        },
        Ok(_) => {},
    }
    match expect(tokens, pos + 3, Mark::Comma, "',' setelah nama clause") {
        Err(er) => {
            return Err(er);
        },
        Ok(_) => {},
    }
    match expect_ident(tokens, pos + 4, "role (mis. 'axiom', 'conjecture')") {
        Err(er) => {
            return Err(er);
        },
        Ok(_) => {},
    }
    expect(tokens, pos + 5, Mark::Comma, "',' setelah role")
}

/// Builds the clause of the statement at `pos`.
#[verifier::rlimit(60)]
fn parse_cnf_statement(
    tokens: &Vec<(Token, usize)>,
    pos: usize,
    arena: &mut TermArena,
    symbols: &mut SymbolTable,
) -> (r: Result<(Vec<Literal>, usize), ParseError>)
    requires
        pos <= tokens@.len(),
        old(arena).wf(),
        old(symbols).wf(),
        statement_at(
            toks(tokens@),
            pos as nat,
            known(old(symbols), old(arena)),
        ).1.in_range(),
    ensures
        final(arena).wf(),
        final(symbols).wf(),
        final(arena).extends(old(arena)),
        known(final(symbols), final(arena)) == statement_at(
            toks(tokens@),
            pos as nat,
            known(old(symbols), old(arena)),
        ).1,
        ({
            let out = statement_at(
                toks(tokens@),
                pos as nat,
                known(old(symbols), old(arena)),
            ).0;
            match r {
                Ok((ls, end)) => {
                    &&& pos < end <= tokens@.len()
                    &&& lits_valid(views(ls@), final(arena))
                    &&& out == Ok::<(Seq<Lit>, nat), ErrorView>(
                        (lits(views(ls@), final(arena)), end as nat),
                    )
                },
                Err(er) => {
                    &&& out == Err::<(Seq<Lit>, nat), ErrorView>(er@)
                },
            }
        }),
{
    let start: usize = match parse_header(tokens, pos) {
        Ok(p) => p,
        Err(er) => {
            return Err(er);
        },
    };
    let mut vars = SymbolTable::new();
    proof {
        let sc = scope(symbols, &vars, arena);
        let ts = toks(tokens@);
        assert(sc == known(symbols, arena).scope());
        lemma_literals_grow(ts, start as nat, sc);
        lemma_literals_grow(ts, (start + 1) as nat, sc);
        lemma_vars_in_range(formula_at(ts, start as nat, sc).1);
    }
    match parse_cnf_formula(tokens, start, arena, symbols, &mut vars) {
        Err(er) => Err(er),
        Ok((ls, p)) => {
            match expect(tokens, p, Mark::RParen, "')' penutup 'cnf(...)'") {
                Err(er) => Err(er),
                Ok(q) => {
                    match expect(tokens, q, Mark::Dot, "'.' penutup statement") {
                        Err(er) => Err(er),
                        Ok(end) => Ok((ls, end)),
                    }
                },
            }
        },
    }
}

/// Reads a problem. Terms are built in `arena`, and names are numbered in
/// `symbols`, also those before an error.
#[verifier::rlimit(60)]
pub fn parse_tptp_problem(input: &str, arena: &mut TermArena, symbols: &mut SymbolTable) -> (r:
    Result<Vec<Vec<Literal>>, ParseError>)
    requires
        old(arena).wf(),
        old(symbols).wf(),
        tptp_problem_of(input@, known(old(symbols), old(arena))).1.in_range(),
        input@.len() < usize::MAX,
    ensures
        final(arena).wf(),
        final(symbols).wf(),
        final(arena).extends(old(arena)),
        ({
            let (out, kn) = tptp_problem_of(input@, known(old(symbols), old(arena)));
            &&& known(final(symbols), final(arena)) == kn
            &&& match r {
                Ok(cs) => clauses_valid(cs@, final(arena)) && out == Ok::<
                    Seq<Seq<Lit>>,
                    ErrorView,
                >(clause_lits(cs@, final(arena))),
                Err(er) => out == Err::<Seq<Seq<Lit>>, ErrorView>(er@),
            }
        }),
{
    let chars: Vec<char> = chars_of(input);
    let tokens: Vec<(Token, usize)> = match tokenize(&chars) {
        Ok(tokens) => tokens,
        Err(er) => {
            return Err(er);
        },
    };
    let ghost ts = toks(tokens@);
    let ghost goal = statements_at(ts, 0, known(symbols, arena));
    let mut cs: Vec<Vec<Literal>> = Vec::new();
    let mut pos: usize = 0;
    proof {
        assert(clause_lits(cs@, arena) =~= Seq::empty());
        if let (Ok(all), _) = goal {
            assert(clause_lits(cs@, arena) + all =~= all);
        }
    }
    while pos < tokens.len()
        invariant
            old(arena).wf(),
            arena.wf(),
            symbols.wf(),
            arena.extends(old(arena)),
            ts == toks(tokens@),
            goal == statements_at(ts, 0, known(old(symbols), old(arena))),
            tptp_problem_of(input@, known(old(symbols), old(arena))) == goal,
            goal.1.in_range(),
            pos <= tokens@.len(),
            clauses_valid(cs@, arena),
            match statements_at(ts, pos as nat, known(symbols, arena)) {
                (Ok(rest), kn) => goal == (
                    Ok::<Seq<Seq<Lit>>, ErrorView>(clause_lits(cs@, arena) + rest),
                    kn,
                ),
                (Err(er), kn) => goal == (Err::<Seq<Seq<Lit>>, ErrorView>(er), kn),
            },
        decreases tokens@.len() - pos,
    {
        let ghost before = *arena;
        let ghost done = clause_lits(cs@, arena);
        proof {
            let kn0 = known(symbols, arena);
            lemma_statement_at(ts, pos as nat, kn0);
            if let (Ok((_, p)), kn1) = statement_at(ts, pos as nat, kn0) {
                lemma_statements_grow(ts, p, kn1);
            }
        }
        match parse_cnf_statement(&tokens, pos, arena, symbols) {
            Ok((c, next)) => {
                let ghost t = lits(views(c@), arena);
                proof {
                    lemma_clauses_extend(cs@, &before, arena);
                    assert(arena.extends(old(arena)));
                    assert(clause_lits(cs@.push(c), arena) =~= done.push(t));
                    if let (Ok(rest), _) = statements_at(ts, next as nat, known(symbols, arena)) {
                        assert(done + (seq![t] + rest) =~= done.push(t) + rest);
                    }
                }
                cs.push(c);
                pos = next;
            },
            Err(er) => {
                assert(arena.extends(old(arena)));
                return Err(er);
            },
        }
    }
    assert(clause_lits(cs@, arena) + Seq::empty() =~= clause_lits(cs@, arena));
    Ok(cs)
}

} // verus!
