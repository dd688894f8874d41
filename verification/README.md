# trickydata_compiler

The compiler of the trickydata input corpus, verified with Verus.

The corpus is a tree of `.input` files, each a YAML frontmatter document and a
data region. The compiler decodes each input's data, assembles the inputs into
an index document and a binary blob, and writes and reads that corpus in
several container formats.

## Layout

- `src/` — the verified library. Each public function states its behaviour in
  `requires`/`ensures` over mathematical models:
  - `text`, `order`, `fmt` — characters, whitespace, text order, number text;
  - `hex`, `format`, `frontmatter`, `compile` — the `hex` mini-language,
    data-region decoding and encoding, splitting an input file, and compiling
    it once split;
  - `paths`, `relpath` — lexical paths, normalization, relative paths;
  - `index`, `pairing`, `retree` — assembling the index and blob, the
    symmetry of pair links, and rebuilding a corpus from the source tree it
    was written out as;
  - `corpus`, `codec`, `cli` — corpus formats and where their files live, the
    `.trickydata` and zip layouts, the choice of output formats;
  - `report`, `diff` — the UTF-8 count report and the comparison of corpora;
  - `schema` — the frontmatter schema and validation against it.
- `tests/` — tests of the library on concrete values.
- `app/` — the file system, YAML/JSON, schema and command-line side: the
  `compile`, `compare`, `make-index` and `verify-utf8` tools.
