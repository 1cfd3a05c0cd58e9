# insearch

The verified core of a content-aware file search tool: it finds files and
searches inside them, reporting matches per line or per
timestamp-to-timestamp block, and can tail growing logs.

- `src/` is the library, verified with Verus. Each public function states in
  its contract what it returns; the laws of the library (block shape, version
  ordering, two-step log tailing, session bookkeeping, ...) are public proof
  functions. Calls into `regex`, `grep-regex`, `chrono`, `quick-xml`,
  `zip` and `serde_json` go through small trusted wrappers whose contracts
  say what those crates do. The decisions of a streaming search (its first
  event, each walked entry, its last event) are verified step functions.
- `app/` is the command-line program: argument reading, walking directories
  (`ignore`), scanning files on disk (`grep-searcher`), reading workbooks
  (`calamine`) and PDFs (`pdf-extract`, which can panic on malformed input),
  and printing.
- `tests/` exercises the library on concrete inputs.
