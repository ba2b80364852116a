# cq

`cq` is jq for Candid: it reads Candid values (text, hex or binary) from
stdin, runs a query such as `.a.b`, `.[1:3]`, `.[]` or `.kind.Transfer? | .amount`
over each, and writes the results as Candid text, hex or binary.

The library in `src/` is verified with Verus; `app/main.rs` is the command
around it.

- `bin_frame` — the length of a binary Candid (`DIDL`) frame, so that frames
  written back to back can be split.
- `text`, `value` — characters and strings; Candid values as plain data.
- `query` — the query language: parser and evaluator, with their models.
- `pipe_text` — query texts joined by ` | `: what they parse and run as.
- `input` — input formats, format detection, and how input is cut into the
  pieces that candid decodes.
- `output` — output formats and the bytes each writes.
- `schema` — label names recovered from `.did` schemas, and put back on
  values decoded from binary Candid.
- `idl` — candid's values converted to the library's and back.
- `label_guard` — text whose record fields candid_parser can number
  without overflowing.
- `cli` — the options as plain data, the decisions taken from them, and
  `render`: one input through the query, the recovered names and the
  output format.

Calls into `candid`, `candid_parser` and `hex` are made from the library
through small unverified functions.  Their contracts state what the
sources of those crates show: exactly where that fits in a few lines (hex
encoding and decoding, label hashes), and otherwise by a name for the
result (what candid parses, decodes, prints or encodes, and what
candid_parser's type checker accepts and binds) that the
library's own contracts then speak of.  `idl` converts candid's values to
the library's and back, variant for variant.
