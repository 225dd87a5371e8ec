# md_previewer

A Markdown previewer whose rendering logic is verified with Verus.

- `src/` — the verified library:
  - `markdown.rs`: Markdown to a full HTML page (through pulldown-cmark),
    heading anchors, table of contents, and the laws that tie them together;
  - `folder.rs`: a folder of Markdown files as one page, README first and the
    rest by name, with a sidebar;
  - `server.rs`: the live-reload snippet;
  - `preview.rs`, `args.rs`, `config.rs`: the decisions of a preview session
    (stylesheet, output file, saving, watcher events, configuration file);
  - `text.rs`: character helpers and the few std facts the library relies on.
- `app/` — the command-line program: argument parsing, files, the browser,
  file watching, Ctrl+C handling and the preview server.
- `tests/` — tests of the library.
