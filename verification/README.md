# envsync

A library and command-line tool to parse, diff, merge and validate `.env`
files, written in Verus.

Layout:

- `src/text.rs` — trimming, searching, splitting, joining and ordering text
  held as sequences of characters.
- `src/literal.rs` — the syntax of decimal integers and floating point numbers.
- `src/sync.rs` — `EnvSync`: the `.env` format, lookup, diff, merge and
  sorted output, with the laws that tie them together (a later line replaces
  an earlier one, merged values take precedence, a merge leaves nothing to
  add or change, a diff read the other way round swaps its parts, the
  sorted output is unique and reads back to the same values).
- `src/validate.rs` — `EnvValidator` and its rules, with the report they give.
- `src/commands.rs` — the rules that `validate` builds from key names, the
  JSON text that `diff --format json` prints (keys and values escaped as JSON
  strings), and the styled lines of the plain `diff` text.
- `app/main.rs` — the command line: argument parsing, file access, styling of the
  diff text.
