# oql

Readable, declarative query syntax for Rust iterators:

```text
from o in orders
join c in customers on o.customer_id == c.id
where c.country == "DE"
orderby o.amount desc
select (o.id, c.name, o.amount)
```

A query becomes a plain iterator chain. This crate is the verified core of
that expansion, written in Verus: every step from query tokens to the
tokens of the chain carries a contract, and the properties the design relies
on are proved.

## Layout

- `src/token.rs`, `src/lexer.rs`: a flat token model (groups are opening and
  closing tokens) and a small tokenizer for query text and code templates.
- `src/tree.rs`: token trees, whose tokens carry positions, flattened into
  the flat model and built back from it; trees with the same flat tokens and
  positions are the same trees.
- `src/ast.rs`, `src/parse.rs`: the clauses of a query, the tokens each one
  stands for, and the parser. A successful parse gives back a well-formed
  query that is written exactly as the input; the parser fails only when no
  well-formed query is written as the input, and each error names the token
  at which the query went wrong.
- `src/liveness.rs`, `src/names.rs`: backwards live-variable analysis over
  the clauses.
- `src/plan.rs`: the stages of the chain. Every clause runs exactly once, in
  the order written; `let`s run inside the next stage; consecutive `orderby`s
  become one sort; a `where` after a plain join is fused into it when it
  reads only the joined row; each stage passes on exactly the bindings that
  are still live.
- `src/rewrite.rs`: field access on a `join_left` binding reads as an
  `Option`.
- `src/emit.rs`, `src/expand.rs`: the code of each stage and of the whole
  query.
- `src/runtime.rs`, `src/order.rs`: the helpers the generated code calls
  (a stable key sort, the matches of a hash join, groups, `zip_must`).
- `app/lib.rs`: the front end over `proc_macro2` token streams; it places
  each error at the span of the token the error names.
- `tests/`: each test checks the exact expansion of its query and runs that
  expansion.
