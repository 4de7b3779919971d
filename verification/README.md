# epub_voicevox

A terminal EPUB reader that reads the text aloud with the VOICEVOX speech
engine (command `bk`), built around a library whose behaviour is stated in
`requires` / `ensures` contracts and proved with Verus.

## Layout

- `src/` — the verified library.
  - `text.rs`: characters, Unicode whitespace, trimming, line splitting,
    terminal column widths (`unicode-width`), decimal notation.
  - `book.rs`: the content model (styled spans, rich text, blocks, chapters,
    table of contents), plain-text wrapping, assembling a book from its
    chapters and navigation entries, image sizes (`image`), resource paths
    to look up in the archive.
  - `html.rs`: chapter XHTML parsed with `scraper` into a flat pre-order list
    of nodes, and the extraction of blocks, inline styles, tables, images,
    chapter titles and resource paths (`path-clean`) from it.
  - `layout.rs`: laying out blocks into numbered display lines, tables and
    image cells at a given width.
  - `speech.rs`: cleaning display lines for speech, sentences, chunks of at
    most 150 bytes with the lines they came from, speech plans, highlighting.
  - `voice.rs`: reading status, speaker selection, the cache of synthesised
    chunks, the preload window, checks on the engine's replies (`serde_json`).
  - `ui.rs`: reader state (chapter, scroll, read line, table of contents), key
    handling, and where each part of a chapter is drawn.
- `app/` — the program: command line (`clap`), reading the archive (`rbook`),
  drawing (`ratatui`, `ratatui-image`), key events (`crossterm`), HTTP to the
  engine (`reqwest`), playback (`rodio`) and threads.
- `tests/` — tests of the library on concrete values.

Each module states its laws as public `law_*` proof functions.
