# nqlite

A deterministic, embedded store for agent memory, and nql, its query language. The library is
written and verified with [Verus](https://github.com/verus-lang/verus): what each function returns
is stated in its contract and proved.

Records, directed named edges and embeddings that the client brings live in one ordered store. nql
statements create tables, insert, relate, forget, select, match paths and close over them.

## Layout

- `src/` is the verified library.
  - `text`, `ordmap`, `number`: text, ordered maps, numerals and floating-point bit patterns.
  - `ir`: records, edges, the store, statements and plans.
  - `lexer`, `parser`, `analyzer`: from nql text to a checked plan.
  - `bm25`, `score`, `votes`, `select`, `walk`, `engine`: execution of a plan on a store.
  - `index`: exact and approximate nearest-neighbour indexes.
  - `harness`: recall and precision against stored relevance edges.
  - `storage`, `database`, `error`: the file format, the write-ahead log and the database.
  - `render`, `cli`, `server`, `json`, `mcp`, `bench`: the logic of the front ends.
- `app/` is the program around it: files, sockets, serialisation and floating-point arithmetic.
- `tests/` runs the library on concrete inputs.

## Floating point

The library holds doubles and singles as bit patterns and compares and orders them there. What takes
floating-point arithmetic, such as a cosine or a BM25 score, is a function that the caller passes in.
Contracts are stated for every such function, so an answer depends on the store, the plan and that
function alone.

## Properties

Each module ends with the laws that relate its functions, as public proof functions named `law_..`:
among them that a plan is atomic, that what was acknowledged survives a crash, that every ordered
result is in one total order, that `FORGET` removes a record with its edges and nothing else, and
that `CLOSURE` is reachability.
