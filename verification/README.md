# gfm-linter

A linter for GitHub Flavored Markdown, written in Verus.  Each rule
(MD001–MD016) is specified as a spec function over the lines of a document,
and the code that reports its diagnostics is proved to compute exactly that.

Layout:

- `src/text.rs` – the character model: whitespace, trimming, `str::lines`,
  UTF-8 widths, decimal rendering.
- `src/rules/` – one module per rule category; `rules/mod.rs` holds the fence
  tracking shared by the table and link rules.
- `src/lib.rs` – `Diagnostic`, `Severity`, and `lint`, which runs every rule
  and sorts the diagnostics stably by line and column.
- `src/laws.rs` – properties of the linter as a whole (reading order, a
  stable sort, no diagnostic lost, positions and severities, each check's
  own rules, the consistency and whitespace rules, the reference, heading
  and fence scanners).
- `tests/` – the rule tests and exact-output tests.
- `app/` – the `gfm-lint` command line tool and the cmark-gfm C bindings.
