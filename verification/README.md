# mimir

A graph of beliefs with probabilities, kept in a graph database. Beliefs support,
defeat, cause and contradict each other; passages of documents ground them.

- `src/` is the library, verified with Verus: probabilities, counts and their arithmetic,
  propagation and interventions, decay and expiry, retrieval and ranking, markdown
  chunks, the statements for the database and the decoding of its rows, the tools
  that clients call, and the texts of the command line and of the session hooks.
- `app/` is the program around it: `mimir`, the command line, and `mimir-mcp`, the
  server. It talks to the database, to embedding models and to clients.
- `tests/` runs the library on concrete values.

Floating-point numbers are held by their bit patterns (`binary64`, `binary32`).
Sums, products, differences and quotients are computed with whole numbers and
rounded to the nearest even, so that contracts can say exactly which number comes
out. A number format's unit is its smallest positive number; `one()` is the number
of units in one.

What the library takes on trust are the calls into `uuid`, `chrono`, `serde_json`
and the case mapping of the standard library. They stand in `ids`, `time`, `rows`
and `text`, each behind one small function.

Of the crates that `Cargo.toml` names, the library itself calls `chrono`, `serde_json`
and `uuid`; the others serve the program. `kstring` is named only to hold a version
that the compiler of this project can build: `tract-onnx` needs it and would
otherwise take a later one. `toml` reads the configuration file.
