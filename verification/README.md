# taino_edit_core

The framework-agnostic core of a WYSIWYG rich-text editor, written in Verus:
a typed document tree checked against a schema, invertible steps and
position mapping, editor state with a bounded undo history, commands and
keymaps, and HTML, JSON and Markdown serialization. Verus checks every
function in `src/` against its contract, except the few trusted wrappers
marked `#[verifier::external_body]` that call std or an outside crate; their
contracts are taken on trust and their doc comments say what they claim.
Many contracts are partial: they bound a result or say when it fails
without giving the whole result. `Node::replace` states its result when the
range and a closed slice lie in the content of the document or of one of
its children (for a deletion there, the size of what remains); each step's
`apply` states which replace it performs;
transforms, commands and undo/redo state that their documents are their
steps applied in order.

Layout:

- `src/` — the verified library, one module per concern (`schema`,
  `content`, `node`, `fragment`, `pos`, `replace`, `step`, `map`,
  `transform`, `state`, `commands`, `keymap`, `html`, `html_parse`, `json`,
  `markdown`, `inputrules`, …). Laws that span several functions are public
  proof functions named `law_*`.
- `tests/` — executable tests of the library.
- `app/` — the parts that hold user-supplied code: regex-triggered input
  rules with boxed handler closures, and the typed plugin registry.

Outside crates: `serde_json` parses JSON text and `pulldown-cmark` reads
Markdown, each behind a small trusted wrapper in `src/`; `regex` is used by
the input rules in `app/`.
