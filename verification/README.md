# philis

An analog layout engine library whose logic is specified and proved with
Verus: geometry and design-rule predicates, connectivity extraction, a SPICE
reader and writer, a GDSII reader and writer, a PDK key scanner, the
programmatic circuit builder, and the staged place-and-route flow with its
acceptance certificates.

## Layout

- `src/` — the verified library.
  - `geom`, `drc`, `predicates`, `coverage`: rectangles, rule predicates and
    violation bookkeeping.
  - `uf`, `lvs`, `extract`: union-find connectivity with net labels and
    shape/via connectivity extraction.
  - `text`, `spice`, `roundtrip`, `parsed`: text helpers, the SPICE deck
    reader and writer, the proof that a written deck reads back, and the
    proof that every deck the reader returns can be written that way.
  - `gds`: GDSII records, the reader and writer, and the proof that a written
    library reads back unchanged (its `UNITS` reals normalized as a double
    would hold them).
  - `pdk`, `port`, `units`, `checks`, `engine`, `flow`, `layout`, `builder`,
    `quick`, `bench`, `utility`, `pex`, `error`, `seqs`: the flow surface.
- `tests/` — executable tests of the library.
- `app/` — the command-line program and everything that needs file or
  environment access or floating-point arithmetic (electromigration, IR drop,
  antenna and parasitic surrogates, GDSII real conversion, `Length`).

Run the verifier on `src/lib.rs`; the laws are the public lemmas (`lemma_*`)
next to the functions they speak of.
