# cream

Finds file paths in arbitrary text (piped input, or the output of a command),
keeps the ones that name files on disk, and shows them in a terminal list.

- `src/` is the library, verified with Verus:
  - `scan.rs`: candidate paths via the `regex` crate, and the `PathMatch`es
    built from them;
  - `paths.rs`: `~/` expansion, trailing-punctuation trimming and the
    file-system probe;
  - `decimal.rs`: reading and writing `u32` line and column numbers;
  - `packed.rs`: a stream with its matches, the three streams of a run, and
    how matches are written out;
  - `tabs.rs`: the viewer's tabs and key handling;
  - `grep.rs`: reading `path:line:contents` lines;
  - `utf8_text.rs`: byte offsets into strings.
- `app/` is the terminal program around it (reading input, running the
  command, drawing with `ratatui`).
- `tests/` runs the library on concrete inputs.
