# memory_viewer

A local viewer for the auto-memory notes that a coding assistant keeps per
project: it gathers the notes of every project, shows the projects as a
folder tree on the left and the notes, with their front matter and rendered
Markdown, on the right.

The library in `src/` is written in Verus and verified:

- `text` — characters of strings, trimming, the lexicographic order of strings;
- `sort` — a stable insertion sort with its laws (ordered result, same elements);
- `paths` — the encoding of project paths into directory names, the naive
  decoding, the lookup of real paths from the configuration file (parsed with
  serde_json) and their resolution;
- `memory` — front matter parsing and the gathering of projects from what was
  read of the memory directories;
- `tree` — the project tree: a trie of path segments, single-folder chains
  collapsed, every level ordered by name;
- `links` — the in-page address of a note (`encodeURIComponent` of the project
  and of the note's name) and the rewriting of links that name a note of the
  same project;
- `route` — which request target gets the page (only `/`) and which a 404;
- `render` — HTML escaping and the page; Markdown is rendered by comrak.

`app/main.rs` holds what is no library: reading the directories and the
configuration file, the HTTP server (tiny_http) and opening the browser.
