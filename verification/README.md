# rust_nv

A Notational Velocity style note taker: one search field that both filters
the notes and creates new ones, plain-text notes stored one per `.txt` file
(file name = title), tags kept in a `.meta.json` sidecar, wiki links,
markdown highlighting, import and export, and catppuccin themes.

The note logic is a library verified with Verus; the window and the file
system live in a thin application around it.

## Layout

- `src/` — the verified library.
  - `text` — strings as char sequences: UTF-8 byte offsets, trimming,
    searching, lines.
  - `markup` — the markdown line and inline parser; its spans tile the text.
  - `highlight` — search matches, wiki links and the highlight spans that
    cover the text; byte/char offset conversions.
  - `layout` — merging markup and highlight spans into sections, and the look
    of each section.
  - `note` — notes, their tags, and the note store with its title and tag
    indexes.
  - `search` — query parsing (`tag:` filters), scoring and ranking.
  - `session` — the decisions of the user interface: selection, navigation,
    sorting, bookmarks, find next/previous, suggestions, search-field and
    wiki-link actions, file-watcher updates.
  - `import` — CSV and HTML to markdown, import by file extension.
  - `export` — HTML escaping and the exported document.
  - `storage` — file naming rules and the note read from a file's parts.
  - `theme` — theme choice and the highlight colors of each flavor.
  - `ui::editor`, `ui::formatting`, `ui::indentation` — wiki links in the
    editor, formatting shortcuts, indentation and list continuation.
- `app/` — the egui application: window, panels, dialogs, file I/O, the
  directory watcher, clipboard and settings.
- `tests/` — tests of the library.

Each public function states its result in its `ensures`; the public
`lemma_*` proof functions state the properties that hold across calls
(for instance that outdenting an indented text gives it back, that a search
finds exactly the notes answering the query, or that the tag list is sorted
and free of case-insensitive duplicates).
