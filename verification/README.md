# laplace_lsp

The logic of a language server for Laplace, a preprocessor that compiles
`.laplace` and `.laplacelib` files to Stan, written and proved in Verus.

- `src/` is the verified library: block and declaration scanning, the symbol
  tables, semantic tokens and their wire format, positions in UTF-16 units,
  diagnostics, the rewriting of library files for `stanc` and the way back,
  completion, go-to-definition, and the decisions of an editing session.
- `tests/` runs it on concrete files.
- `app/` is the server: the protocol, the file system, the `stanc` process and
  the calls into the `laplace` compiler, which is expected beside this crate.

The library never calls the compiler. What the compiler says of a file is
handed in as plain values, and whatever is relied upon there is stated in a
`requires` and can be tested beforehand.

The table of Stan's built-in functions (`src/builtins.rs`) is written by hand
and may lack names.
