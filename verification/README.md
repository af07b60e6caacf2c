# dupehound

Finds near-duplicate functions, even renamed ones, by fingerprinting the
normalized structure of their bodies with winnowing (Schleimer, Wilkerson &
Aiken, 2003), then clusters the duplicates and scores how much code could be
deleted if every cluster kept one copy.

## Layout

- `src/` — the library, verified with Verus: normalization of syntax leaves,
  k-gram hashing and winnowing, the inverted index that finds duplicate and
  containment pairs, clustering into connected components, the slop score and
  grade, the `check` gate (diff hunks, base index, best match, move rule,
  ordering of findings), history snapshot planning and calendar months,
  import suggestions, path rules, text layout helpers and the MCP reply
  decisions. Each public function carries its contract; the laws the tool
  relies on are public proof functions beside the code they speak of.
- `tests/` — tests of the library on concrete values.
- `app/` — the command line: argument parsing, directory walking, git
  subprocesses, JSON and terminal output, and the
  floating-point presentation (percentages, similarity bars, history chart).

Parsing stands in `src/parse.rs`: tree-sitter parses a file and lists its
nodes, and the library finds the functions, their bodies and the leaves.
Grammars are linked for TypeScript, TSX, JavaScript, Python, Rust, Go and
Java; files in the other recognised languages are counted as unparsed.
