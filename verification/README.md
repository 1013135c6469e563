# file_search_app

Local file search: register folders, index file names and paths, search
them with a small query language (`name:`, `path:`, `ext:`, quoted phrases),
and keep the index in step with the disk.

- `src/` is the verified library:
  - `paths` — file name, extension and folder containment of paths, under
    Unix or Windows path rules (the host's are read at run time);
  - `query` — the query parser and its translation to the index's syntax;
  - `scanner` — exclusion rules and the files a scan keeps;
  - `xml_text`, `documents` — text of Office parts, archives and plain
    text, and the extraction outcome per file;
  - `order` — the orders that put document parts in reading order;
  - `records`, `indexing`, `search` — folder records, indexing-pass
    bookkeeping, and turning queries and index results into hits;
  - `laws` — properties proved for all inputs.
- `app/` is the program around it: the SQLite state database, the Tantivy
  index, directory walking, file watching, PDF and Tika extraction, and the
  command line.
- `tests/` runs the library on concrete inputs.
