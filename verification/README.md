# codegraph

A code-knowledge graph for agents and the command line: source files of
thirteen languages are parsed into definitions, calls, inheritance and HTTP
routes; calls are resolved into edges (same file first, then a project-wide
unique name, never across languages, ambiguous names left unlinked); SCIP
indexes add precise edges that supersede the heuristic ones; the graph is
indexed incrementally and kept per checkout, with a time-to-live registry
that reclaims abandoned graphs.

## Layout

- `src/` is the library, written in Verus: every function carries a
  contract and is verified. The laws of the library (what holds across
  calls, such as "a recently used project is never reclaimed" or "a precise
  edge supersedes the heuristic edge for the same pair") are public proof
  functions named `law_*`. Calls into tree-sitter, petgraph, SCIP/protobuf,
  sha2 and regex go through small trusted wrappers whose contracts say what
  the crates document.
- `tests/` runs the library on concrete inputs with the real crates linked.
- `app/` is the command-line program and the stdio tool server: argument
  parsing, the file system, the SQLite store, the commit log, and the
  floating-point graph analytics (PageRank, Louvain communities,
  betweenness), and the PDF and HTML text extractors, which can panic on
  malformed input and so run under a panic guard. It hands plain values to the library and prints what comes
  back.
