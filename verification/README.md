# ditto_cot

Cursor-on-Target (CoT) messages and their mapping onto Ditto documents,
written in Verus: the reading and writing of CoT XML, the detail section in
plain and CRDT-friendly (stable key) form, the flattening of detail members
into `r_*` document fields, the Ditto documents of events and the reading
of events back from them, and the comparison of XML texts by meaning.

Layout:

- `src/` is the verified library. Each module states its functions'
  behaviour over spec functions and proves it; the laws of the library are
  public proof functions (`lemma_*`). quick-xml, roxmltree and serde_json
  are called through a few trusted wrappers in `xml.rs`, `cot_parse.rs`,
  `xml_compare.rs` and `json.rs`, whose results are named by uninterpreted
  spec functions.
- `tests/` runs the library on concrete inputs.
- `app/` is the interface for programs: events with `f64` coordinates and
  `chrono` times, `serde_json` values, and the error type. It converts
  between those and the library's plain values.
