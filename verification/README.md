# moa

The storage core of Moa, a local-first Markdown knowledge base, written in
Verus. Notes are Markdown files with a YAML frontmatter block under
`notes/` in a vault; `.moa/moa.sqlite` is a search index derived from them
that can always be rebuilt.

Layout:

- `src/` — the verified library.
  - `text.rs`: strings as character sequences, trimming, case folding,
    substring search, joining.
  - `order.rs`: the lexicographic order of strings.
  - `normalize.rs`: titles, categories, required fields and tags.
  - `slug.rs`: file-name slugs of titles.
  - `names.rs`: decimal numbering, file stems and extensions, free names.
  - `frontmatter.rs`: framing and splitting a note's text, checking and
    normalizing its frontmatter.
  - `settings.rs`: the recent-vaults list and the session's open vault.
  - `query.rs`: sanitizing full-text queries.
  - `documents.rs`: the records of the storage layer.
  - `listing.rs`, `search.rs`: which documents a listing or search returns,
    and in what order.
  - `rebuild.rs`: planning an index rebuild from the note files.
  - `vault.rs`: vault layout, note and trash file names, content hashes,
    and the records of create, save, open and status.
  - `cli.rs`: the flags of the storage command line.
- `app/` — the storage command line: file system, SQLite (rusqlite), YAML
  and JSON (serde), clock and random ids, driving the library.
- `tests/` — tests of the library.
