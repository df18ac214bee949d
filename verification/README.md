# serve_md

Serve a folder of Markdown files as a small website: clean URLs (`guide.md` is served
at `/guide`), a table of contents per page, directory listings, static assets, and no
file outside the scanned tree is ever served.

The library in `src/` is verified with Verus:

- `scan` — the index of the served tree (clean URL → file, directory → entries), built
  from the paths met while walking it; hidden entries are skipped.
- `resolve` — what a request URL leads to (page, file, listing, redirect, not found),
  and the percent-encoding of links.
- `markdown` — table of contents, title and anchors of a page; the HTML comes from
  `pulldown-cmark`, with raw HTML shown as text.
- `template` — the HTML of pages, tables of contents and directory listings.
- `handlers` — the steps of answering a request, with the size limits.
- `server`, `cli`, `error` — shared state, the ports to try, the command line and errors.

`app/main.rs` is the program around it: command line, directory walk, HTTP server and
file I/O.
