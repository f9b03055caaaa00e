# article_reader

Turns an article (Markdown, HTML or plain text) into speech: the article is
parsed into content blocks, cleaned up into a reading text (or an SSML
document with pauses), cut into chunks that the Microsoft Edge speech
service accepts, and the audio of the chunks is joined into one MP3 file,
or one file per top-level section.

## Layout

- `src/` is the library, verified with Verus. Every public function states
  in its contract what it returns, over spec functions of `Seq<char>` and
  the other types of vstd.
  - `text`: character-level helpers (trimming, splitting, joining,
    replacing) and their specifications.
  - `parser`: the article model, the title rule, decoding of the raw bytes
    and dispatch by file extension; `parser::text`, `parser::markdown` and
    `parser::html` turn each format into blocks. Markdown events come from
    `pulldown-cmark`, the HTML tree from `scraper`; the walk over them is
    verified.
  - `rewrite`: the regular-expression rewrites of the reading text, made by
    the `regex` crate, and what each of them does.
  - `preprocess`: the reading text and its SSML form; `reading`: the proof
    that the clean-up keeps the notes read in place of skipped blocks.
  - `splitter`: sections at the top-level headings, and safe file names.
  - `tts`: voice and speed options, synthesis settings, chunking and the
    retry schedule.
  - `config`, `cli`, `ui`: the voice alias table, command-line decisions,
    and the text of the terminal output (voice table rows, summary lines,
    panel layout).
  - Proof functions named `law_*` state properties that hold across calls:
    the alias table read both ways, idempotent voice resolution, chunks that
    fit and concatenate back, sections that partition the blocks, and more.
- `tests/` runs the library on concrete articles.
- `app/` is the command-line program: argument parsing, file and network
  I/O, the parallel synthesis loop, and terminal output.
