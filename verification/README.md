# lang_1

An interpreter for a small scripting language, written and proved with Verus.

Layout of the library (`src/`):

- `tokenize` — reads source lines into tokens (`scan_line`, `tokenize_checked`).
- `preprocess` — groups tokens into lists, dictionaries, indexes, functions, control
  blocks and classes.
- `statics` — the `Token` type, its lists and dictionaries, literal types.
- `scopes` — the stack of variable scopes with their flags (`VarScopes`).
- `parser` — the interpreter (`Parser`), which talks to the outside world through the
  `Host` trait: output, input, files and decimal arithmetic.
- `method_bindings`, `logger`, `replacer`, `names`, `decimal`, `text`, `pattern` —
  support: members of built-in types, the log, escape rewriting, ordered name maps,
  integer text, strings, and regular expressions (through the `regex` crate).
- `laws` — properties that relate several operations.

`app/main.rs` runs `code.ihl` with a host on the terminal and the file system.
