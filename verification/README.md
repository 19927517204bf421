# fukurow

RDF graph storage and OWL/RDFS reasoning for cyber security events,
written in Verus. Every function of the library under `src/` carries a
`requires`/`ensures` contract that Verus proves; the laws that relate
several operations stand beside them as public proof functions named
`law_*`.

## Layout

- `src/model.rs`, `src/store.rs`, `src/rdf_store.rs`, `src/index_list.rs`:
  triples, the indexed triple store and pattern queries.
- `src/rdfs.rs`, `src/closure.rs`, `src/hierarchy.rs`: RDFS inference and
  the class and property hierarchies it closes.
- `src/lite/`: OWL Lite ontologies, their loader, reasoner and tableau.
- `src/dl/`: OWL DL class expressions, their loader, reasoner and tableau
  with its completion graph.
- `src/shacl/`: SHACL shapes, their loader and the validator with its
  reports.
- `src/rules/`, `src/engine/`, `src/cyber/`: rule engines, the policy DSL,
  the reasoning pipeline and the cyber event patterns.
- `src/operator/`, `src/api.rs`, `src/siem.rs`, `src/observability.rs`,
  `src/cli.rs`, `src/interactive.rs`: deployment plans, request handling,
  SIEM events, health, command-line decisions and what each line typed in
  the interactive mode asks for.
- `src/outside.rs` and `src/index_list.rs`: the trusted items through
  which the library calls `regex`, `chrono`, `anyhow`, `smallvec`,
  `shell-words` and std's clock, each with a doc comment on what its contract claims.
- `app/`: the command-line program and the web server, with the I/O,
  serialisation and floating-point statistics that stay outside the
  verified library.
- `tests/`: the tests, run against the compiled library.
