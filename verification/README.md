# customs-core

Import boundaries for Python projects, checked with Verus.

A project declares rules in its `pyproject.toml` (`[tool.customs]`): source
roots, importer prefixes to ignore, and named rules, each controlling a module
tree and listing who may import it (`$submodules` for the tree itself). The
library maps a file to its module, reads its import statements from the
tree-sitter-python syntax tree, and reports each import that a rule forbids.

- `src/` is the verified library: `text` (strings, dotted paths, order),
  `syntax` (the tree-sitter tree as a preorder listing of plain nodes),
  `imports`, `mapping`, `config`, `lint`, `store` (the rate-limited
  configuration cache), `discover` (what a check looks at), `settings` (editor settings) and `position`
  (editor positions).
- `app/` is the `customs` program: `customs check [paths...]` and
  `customs lsp`, with the file system, TOML reading, the clock and the
  language server.
