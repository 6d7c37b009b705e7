# Bear

A saturation-based theorem prover for first-order clause sets, written in Verus.
Bear derives clauses by binary resolution and factoring until it meets the empty
clause, has processed every clause, or reaches a limit. Every derived clause
carries its rule, its parents and the unifier that was used, so a proof can be
walked back to the input and written out as a certificate.

## Layout

| File | What it holds |
|---|---|
| `src/term.rs` | hash-consed terms and the symbol table |
| `src/tree.rs` | terms as mathematical trees, instances, sizes |
| `src/forest.rs` | the terms of an arena as a list of trees, and how it grows |
| `src/bindings.rs` | triangular substitutions and unification as mathematics |
| `src/unify.rs` | substitutions, unification, applying a substitution |
| `src/clause.rs` | literals, clauses, the clause store, proof traces |
| `src/inference.rs` | renaming apart, resolution, factoring |
| `src/semantics.rs` | models, and soundness of the two rules |
| `src/saturation.rs` | the given-clause loop |
| `src/graph.rs` | depth-first order and cycles |
| `src/proof_dag.rs` | proofs as graphs: validation and certificates |
| `src/beardag.rs` | the `.beardag` certificate format |
| `src/parser.rs` | problems as parenthesised lists |
| `src/tptp.rs` | problems in TPTP's `cnf` dialect |
| `src/text.rs` | text helpers |
| `app/` | demonstrations that read problem files and print proofs |

## A problem

```
(clause (not (man X)) (mortal X))
(clause (man socrates))
(clause (not (mortal socrates)))
```

Names that start with an upper-case letter or `_` are variables, and each clause
has variables of its own.

## What is proved

- A term id stands for one tree, and equal trees have equal ids.
- Unification with the occurs check finds a most general unifier, or there is
  none.
- Resolvents and factors hold in every model in which their parents hold; a
  refuted problem has no model.
- Resolution and factoring derive every conclusion, and a search stops below its
  limit only where the next inference does not fit into 32-bit numbers.
- A run stores what it derives in a fixed order, each clause with the variables
  drawn for it, and makes no inference twice.
- A saturated search holds every factor of its clauses, and every resolvent up to
  the names of variables.
- A proof trace lists every clause it needs, parents first.
- A search that found the empty clause gives a valid graph with a certificate.
- Reading a problem gives exactly the clauses that the grammar says, or the
  first error with its line.
