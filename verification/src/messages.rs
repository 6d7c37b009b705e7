//! Messages of errors can be read back: what they are about stands in them.
use crate::beardag::{beardag_error_text, BeardagError};
use crate::certificate::{
    lemma_take, lemma_take_field, lemma_take_not, lemma_take_number, take_field, take_number,
    take_text, values,
};
use crate::parser::{parse_error_text, ErrorView};
use crate::proof_dag::{error_text, DagErrorView};
use crate::text::{decimal, is_digit, lemma_join_first, number_list, numbers};
use vstd::prelude::*;

verus! {

/// Numbers with `, ` between neighbours, and what follows them.
pub open spec fn take_items(s: Seq<char>) -> (Seq<nat>, Seq<char>)
    decreases s.len(),
{
    match take_number(s) {
        None => (Seq::empty(), s),
        Some((n, r)) => match take_text(r, ", "@) {
            Some(r) if r.len() < s.len() => {
                let (ns, e) = take_items(r);
                (seq![n] + ns, e)
            },
            _ => (seq![n], r),
        },
    }
}

/// A list of numbers in brackets, and what follows it.
pub open spec fn take_list(s: Seq<char>) -> Option<(Seq<nat>, Seq<char>)> {
    match take_text(s, "["@) {
        None => None,
        Some(r) => {
            let (ns, e) = take_items(r);
            match take_text(e, "]"@) {
                None => None,
                Some(e) => Some((ns, e)),
            }
        },
    }
}

proof fn lemma_take_items(ids: Seq<u32>, rest: Seq<char>)
    requires
        rest.len() > 0,
        rest[0] == ']',
    ensures
        take_items(numbers(ids, ", "@) + rest) == (values(ids), rest),
    decreases ids.len(),
{
    reveal_strlit(", ");
    let sep = ", "@;
    let parts = Seq::new(ids.len(), |i: int| decimal(ids[i] as nat));
    let s = numbers(ids, sep) + rest;
    if ids.len() == 0 {
        assert(s =~= rest);
        assert(take_number(s) is None) by {
            reveal(take_number);
        }
        assert(values(ids) =~= Seq::<nat>::empty());
    } else {
        let n = ids[0] as nat;
        if ids.len() == 1 {
            assert(s =~= decimal(n) + rest);
            lemma_take_number(n, rest);
            lemma_take_not(rest, sep, 0);
            assert(values(ids) =~= seq![n]);
        } else {
            lemma_join_first(parts, sep);
            assert(parts.skip(1) =~= Seq::new(
                ids.skip(1).len(),
                |i: int| decimal(ids.skip(1)[i] as nat),
            ));
            let more = numbers(ids.skip(1), sep) + rest;
            let r = sep + more;
            assert(s =~= decimal(n) + r);
            lemma_take_number(n, r);
            lemma_take(sep, more);
            lemma_take_items(ids.skip(1), rest);
            assert(values(ids) =~= seq![n] + values(ids.skip(1)));
        }
    }
}

/// A list can be read back from its text.
pub proof fn lists_can_be_read(ids: Seq<u32>, rest: Seq<char>)
    ensures
        take_list(number_list(ids) + rest) == Some((values(ids), rest)),
{
    reveal_strlit("]");
    let e = "]"@ + rest;
    let body = numbers(ids, ", "@) + e;
    assert(number_list(ids) + rest =~= "["@ + body);
    lemma_take("["@, body);
    lemma_take_items(ids, e);
    lemma_take("]"@, rest);
}

/// The line and the message can be read back from the text of a reading error.
pub proof fn reading_errors_name_their_line(e: ErrorView)
    ensures
        take_field(parse_error_text(e), "baris "@) matches Some((n, r)) && n == e.line && take_text(
            r,
            ": "@,
        ) == Some(e.message),
{
    reveal_strlit(": ");
    let r = ": "@ + e.message;
    assert(parse_error_text(e) =~= "baris "@ + (decimal(e.line) + r));
    lemma_take_field("baris "@, e.line, r);
    lemma_take(": "@, e.message);
}

/// What an error of a proof graph is about can be read back from its text.
pub proof fn graph_errors_name_their_clauses(e: DagErrorView)
    ensures
        match e {
            DagErrorView::UnknownParent { clause, missing } => {
                take_field(error_text(e), "clause "@) matches Some((c, r)) && c == clause
                    && take_field(r, " references unknown parent "@) == Some(
                    (missing as nat, Seq::<char>::empty()),
                )
            },
            DagErrorView::Cycle(path) => take_text(error_text(e), "cycle detected: "@) matches Some(
                r,
            ) && take_list(r) == Some((values(path), Seq::<char>::empty())),
            DagErrorView::NoBottom => true,
            DagErrorView::DuplicateId(id) => take_field(error_text(e), "duplicate clause id "@)
                == Some((id as nat, Seq::<char>::empty())),
            DagErrorView::ParentsMismatch { clause, declared, implied_by_rule } => {
                take_field(error_text(e), "clause "@) matches Some((c, r)) && c == clause && (
                take_text(r, ": inference.parents = "@) matches Some(r) && (take_list(r)
                    matches Some((ds, r)) && ds == values(declared) && (take_text(
                    r,
                    " but rule implies "@,
                ) matches Some(r) && take_list(r) == Some(
                    (values(implied_by_rule), Seq::<char>::empty()),
                ))))
            },
        },
{
    let none = Seq::<char>::empty();
    match e {
        DagErrorView::UnknownParent { clause, missing } => {
            reveal_strlit(" references unknown parent ");
            let r = " references unknown parent "@ + (decimal(missing as nat) + none);
            assert(error_text(e) =~= "clause "@ + (decimal(clause as nat) + r));
            lemma_take_field("clause "@, clause as nat, r);
            lemma_take_field(" references unknown parent "@, missing as nat, none);
        },
        DagErrorView::Cycle(path) => {
            assert(error_text(e) =~= "cycle detected: "@ + (number_list(path) + none));
            lemma_take("cycle detected: "@, number_list(path) + none);
            lists_can_be_read(path, none);
        },
        DagErrorView::NoBottom => {},
        DagErrorView::DuplicateId(id) => {
            assert(error_text(e) =~= "duplicate clause id "@ + (decimal(id as nat) + none));
            lemma_take_field("duplicate clause id "@, id as nat, none);
        },
        DagErrorView::ParentsMismatch { clause, declared, implied_by_rule } => {
            let last = number_list(implied_by_rule) + none;
            let r2 = " but rule implies "@ + last;
            let list = number_list(declared) + r2;
            let r1 = ": inference.parents = "@ + list;
            assert(r1.len() > 0 && !is_digit(r1[0])) by {
                reveal_strlit(": inference.parents = ");
            }
            assert(error_text(e) =~= "clause "@ + (decimal(clause as nat) + r1));
            lemma_take_field("clause "@, clause as nat, r1);
            lemma_take(": inference.parents = "@, list);
            lists_can_be_read(declared, r2);
            lemma_take(" but rule implies "@, last);
            lists_can_be_read(implied_by_rule, none);
        },
    }
}

/// The last clause can be read back from the text of an error on a certificate
/// that does not end with the empty clause.
pub proof fn certificate_errors_name_the_last_clause(last_id: u32)
    ensures
        take_field(
            beardag_error_text(BeardagError::NotBottomTerminated { last_id }),
            "certificate's last clause ("@,
        ) matches Some((n, _)) && n == last_id,
{
    let r =
        ") is not  ⊥ — pass the output of ProofDag::certificate() directly, don't reorder it"@;
    assert(r.len() > 0 && !is_digit(r[0])) by {
        reveal_strlit(
            ") is not  ⊥ — pass the output of ProofDag::certificate() directly, don't reorder it",
        );
    }
    let key = "certificate's last clause ("@;
    assert(key + decimal(last_id as nat) + r =~= key + (decimal(last_id as nat) + r));
    lemma_take_field(key, last_id as nat, r);
}

} // verus!
