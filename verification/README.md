# ctxctl

A stateless context layer for AI coding agents: symbol outlines and slices of
source files (tree-sitter), raw line ranges, import graphs, and compressed
command output. Every view is stated as a function of its inputs and of
the tree the source's grammar parses its bytes into.

The library under `src/` is written in Verus: each function carries a
contract over a mathematical model of its inputs, and Verus proves the code
against it.

- `exec` — compression of command output: keep patterns, head/tail windows,
  folded runs, long-line truncation, and the streaming compressor.
- `language`, `syntax`, `extract`, `lang/` — parsing with tree-sitter, a
  plain reading of the tree, and symbol extraction per language.
- `compact`, `outline`, `suggest` — compact symbol views, outlines, and the
  suggestions that follow a missed lookup.
- `imports`, `deps` — import extraction and dependency classification.
- `cli`, `commands`, `config`, `arguments`, `tools` — the command line's
  rules, what each command renders, configuration layering, and the MCP
  tool registry with its argument checks and path confinement.

Outside crates (tree-sitter and its grammars, `regex`, `tiktoken-rs`,
`shell-words`) are called through small trusted wrappers. Where a result is
a function of its inputs but takes pages to state (a regex match, a token
count, a parse tree), the contract names it and relates it to the inputs.
Each bundled grammar is identified by name (`GrammarId`), and the tree a
grammar parses some bytes into is named as a function of the two; the tree
reading is proved to be that tree, node for node: which grammar and which
bytes (plain or annotation-masked) a parse uses is stated, and two
readings of one tree agree on every field. A parse of a supported file is
owed whenever its trees fit a `usize` count of nodes.

`app/` holds the binary: argument parsing, file and process I/O, JSON
output, and the MCP stdio server. `tests/` exercises the library.
