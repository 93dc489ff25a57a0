# markdown_math

Recognizes TeX math in Markdown text before a Markdown renderer consumes its
backslashes, and lays out a small TeX subset as plain Unicode text. The
library's logic is proved with Verus against its contracts; its few calls into
`pulldown-cmark`, `unicode-width` and the standard library go through trusted
wrappers, whose contracts are believed and stated in their doc comments.

- `src/render.rs`: the bounded TeX renderer (`render`, `MathParser`), specified
  by the recursive spec functions `spec_sequence`, `spec_atom`, `spec_command`,
  which give where each step leaves the parser, whether it renders or refuses.
- `src/tables.rs`: the symbol, superscript and subscript tables.
- `src/scan.rs`: the byte-level math scanner (`scan_all`) and its executable
  loop, with the facts that its results come in order and avoid protected ranges.
- `src/math.rs`: `MathMarkdown`, which masks replaced formulas, and `events`,
  which splices rendered formulas back into the renderer's text events.
- `src/cmark.rs`, `src/width.rs`, `src/chars.rs`: the calls into
  `pulldown-cmark`, `unicode-width` and `std` that the proofs rely on, each with
  the contract stated in its doc comment.
- `src/laws.rs`: properties that span several functions, proved.
- `app/lib.rs`: adapters between `pulldown_cmark` events and the library's types.
