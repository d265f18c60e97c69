# lymals

A parse-only language server core for Lyma documents, written in Verus.

- `src/` is the verified library: lexer and fallback parser, diagnostics, formatting
  (whole document and range), completion (directives, profiles, import paths and aliases,
  Lua names, mapping keys, scalar values and snippets), hover, navigation (in the document
  and across the workspace: definition, declaration, type definition, implementation),
  references and rename across the workspace, folding and selection ranges, inlay hints,
  semantic tokens and their debug rendering, symbols, the document outline and workspace
  symbol search, request cancellation, code actions, commands, the document store,
  workspace roots and file selection, the guard on import targets, and the workspace
  index with the plan of its loading. Each public function states what it returns in its
  `ensures`; the laws that relate several functions are public proof functions beside
  them.
- Functions that search the workspace take its files as `(uri, text, file id)` triples
  and do no I/O themselves.
- `app/` is the server binary: command-line flags, logging, the configuration schema,
  the walk of the workspace folders and reading of their files, and the tower-lsp service
  that hands requests to the library and publishes its diagnostics.
- `tests/` runs the library on concrete inputs.
