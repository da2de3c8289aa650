# echojournal

The verified core of a local-first journal. Entries live in Markdown files:
`### ` opens a day, the day's first line is its date, and every entry is a
line `- **time**: text #tag`.

- `src/` is the library, verified with Verus:
  - `text`: string operations (`trim`, `split`, `lines`, `replace`, string
    order, decimal numerals) stated over character sequences;
  - `sorting`: stable sort stated as insertion sort, with its laws;
  - `journal`: the entry format, its parser, the order of entries, and the
    laws that written days and entries read back;
  - `dates`: the seven-day edit lock;
  - `oracle`: prompts, reading model replies, the JSON framing of refined
    thoughts, and when local generation stops;
  - `vectors`: identifiers and stored text of indexed entries, ranking of
    search matches, sync messages;
  - `export`: the text of PDF and Word exports;
  - `tags`: the tag registry.
- `tests/` runs the library on concrete inputs.
- `app/` is the desktop application around it: Tauri commands, files, SQLite,
  the embedding and language models, and the file watcher.
