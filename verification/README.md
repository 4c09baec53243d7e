# searchcore

A search for files by name that answers within milliseconds, with its rules proved in Verus: what
the index holds, what a query finds and in what order, how the index follows the changes on disk and
survives a restart, and by which keys and settings the launcher around it is called.

- `src/` is the library. Every function states what it does, and Verus proves it, but for calls of
  other crates and of the standard library that Verus takes as stated:
  - `fx`: `insert`, `get`, `remove`, `len` and `contains` of the `rustc-hash` tables;
  - `par`: mapping over chunks and over items with `rayon`;
  - `py`: the reading of a character by the `pinyin` crate;
  - `commands`: the counts of opened paths, read from and put into text by `serde_json`;
  - `text`: `String::push` and `char::from_u32`.

  Its modules:
  - `types`, `index`, `fx`: the entries of a volume, their names, and the table of file numbers;
    `model` says what an index is in mathematical terms, `laws` what its operations keep and change,
    `history` what holds whatever came before.
  - `py`, `text`, `bytes`: spelling by sound, UTF-16 and paths, numbers as bytes.
  - `matcher`, `topk`, `par`: scores, the best candidates, and the search over all volumes at once;
    `search_laws` says what a search promises.
  - `mft`, `usn`, `volume`, `walker`, `snapshot`: the records of file tables and journals, drives,
    directories, and the stored form of an index.
  - `engine`, `session`: how an index is built, loaded, brought up to date and kept up to date, as
    decisions on what has happened.
  - `commands`, `settings`, `hotkey`, `shell_ops`: the rules of the launcher.
- `tests/` runs the library.
- `app/` is the launcher: system calls, files, threads, windows and the user interface. Its parts
  that need a window are built on Windows only.

Windows calls, files and the clock are not part of the library; it is told what came back of them.
