# cqels_core

The core of an engine for continuous queries over RDF and graph streams, written
and verified in Verus.

- `src/operator`: stream operators (filter, bind, minus, RSP-QL streams, windowed
  and hash joins, aggregates, ranking, paths) and the indexes and ring algebra
  behind incremental join aggregates: time indexes, tries, two-way and N-way join
  states, join graphs, variable orders and view plans.
- `src/parser`: the query languages CQELS-QL and CypherQL, from a grammar of
  parsing expressions to syntax trees.
- `src/store.rs`, `src/matching.rs`: static RDF data in an `oxigraph` store, and
  triple patterns matched against it.
- `src/model.rs`, `src/stream.rs`, `src/query.rs`: terms, solutions, stream
  elements and query inputs.
- `app`: what stands around the core: floating-point aggregates, asynchronous
  streams, the clock, error and display types.

What an operator promises stands in its contract; what holds across operators
stands in public proof functions named `law_..`. The items that are believed
without proof are `par_map` (`rayon`), `String::push`, `str::to_uppercase`
(`src/parser/capitals.rs`), and the calls into `oxrdf` and `oxigraph` in
`src/store.rs`.
