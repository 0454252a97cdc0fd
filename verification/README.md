# saql_editor

The verified core of a browser playground for SQL over uploaded JSON and CSV
files, written in Verus.

- `src/naming.rs`: the format of a file told by its extension, the stem of a
  path, and how an upload resolves to a table name and a format.
- `src/catalog.rs`: the list of loaded tables; loading a name again replaces
  the table of that name.
- `src/results.rs`: query batches turned into what the page shows, cut at
  5000 rows.
- `src/validation.rs`: a parser message turned into the editor's diagnostic
  (line and column).
- `src/text.rs`: character helpers.
- `app/`: the HTTP server and the WebAssembly bindings around the library:
  multipart parsing, temp files, the SQL engine, Arrow formatting, JSON.
