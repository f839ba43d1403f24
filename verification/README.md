# kindle_to_markdown

Convert Kindle `My Clippings.txt` exports into Markdown, as a library whose
behaviour is stated in Verus contracts and proved, with a small program around it.

## Layout

- `src/` — the verified library.
  - `text.rs` — trimming, splitting, lines and joining on character sequences.
  - `pattern.rs` — the `regex` crate, as the header parser uses it.
  - `clippings.rs` — `KindleEntry` and `parse_kindle_clippings`.
  - `markdown.rs` — `convert_to_markdown` and its laws.
  - `export.rs` — slugs, the files of an export (one, or one per book), output targets.
  - `paths.rs` — paths as text, drive roots, mount folders, finding the clippings file.
  - `process.rs` — de-duplication, ordering and statistics.
  - `settings.rs` — the settings, their template and the settings file's place.
  - `cli.rs` — the decisions of the command-line program.
- `app/` — the program: argument parsing, files, stdin/stdout, the settings file.
- `tests/` — tests of the library.

Paths in the library are text; joining follows `std::path::Path::join` on
Unix-like systems (and on Windows for a drive root such as `E:\`), and two
paths are the same where `std::path::Path::components` gives the same parts.
