# surf-core

Surface keeps prose claims about code honest. A hub is a markdown document whose YAML
frontmatter lists claims, each anchored at a symbol (`path > A > B`, with `@N` to pick one of
several same-named symbols) and sealed with a fingerprint of the anchored code. The
fingerprint is taken over a canonical token stream of the symbol's syntax tree: formatting and
comments do not count, identifiers are numbered in order of first use (so a consistent rename
keeps it), and operators, keywords and literal values are kept as written.

The library is verified with Verus:

- `anchor`, `lang`, `syntax`, `names`, `resolve`: the anchor grammar, languages, the syntax
  tree model and symbol resolution.
- `hash`, `rename`: fingerprints, change magnitude, and finding a symbol by its fingerprint.
- `surface`, `order`: the public symbols of a file and their order.
- `hub`, `config`, `report`: hub text (fences, surgical edits of `hash:` and `at:` lines),
  configuration and the check report.
- `check`, `lint`, `verify`, `suggest`, `workspace`: the verdict on each claim, lint findings,
  stamping, proposals for unanchored symbols, new hubs and the reverse lookup.
- `git`, `stats`, `history`: reading version-control output, the claim state of each commit
  and the adoption tallies.

`app/` is the `surf` command line around it: argument handling, file and git I/O, YAML and
TOML parsing, JSON output, and the division of the tallies into rates.
