# zsh_z

The core of a frecency directory jumper (`z <partial>` changes to the directory
visited most often and most recently among those matching the query), as a
Verus-verified library, with the zshrs plugin glue around it in `app/`.

- `src/glob.rs` — `*`/`?` globbing over bytes, proved against a recursive
  definition of matching, with laws (`*` matches everything, `*LIT*` finds
  occurrences, `LIT*` finds prefixes, plain patterns match only themselves).
- `src/pattern.rs` — query to pattern, shell quoting, and the laws that tie a
  plain query to the paths it selects and a quoted word to its value.
- `src/matching.rs` — which remembered paths a pattern selects (case-sensitive
  matches first, case-insensitive ones otherwise).
- `src/datafile.rs` — the datafile's location, splitting it into lines, writing and
  reading its `path|rank|time` lines (with read-back laws), and the row updates of a
  visit or a removal (ranks are opaque to the library).
- `src/record.rs` — which visits are recorded (`$HOME`, excluded directories).
- `src/command.rs` — the `z` command line: internal requests, options, completion,
  and the final action once the matches are known.
- `src/clock.rs`, `src/text.rs` — time, Unicode whitespace, trimming, decimal parsing.
- `app/` — shell variables, files, floating-point frecency and ordering, output.
