# spidero

A small search-engine crawler. The library (`src/`) holds its logic, verified
with Verus:

- `dom`: the document tree of a page; `walk` collects the `data-tools`
  records in document order, `walk_all` / `render_document` show the tree as
  indented text; laws: one line per shown node, every record shown with its
  attribute, the same lines at any indentation, shifted alike.
- `escape`: `escape_default`, the escape of `char::escape_default` over a
  string; laws: printable output, concatenation, a text is its own escape
  exactly when it is plain, escaping is injective and read back by
  `unescaped`.
- `html`: html5ever's document parser behind a trusted wrapper.
- `page`: what is shown and found of a fetched page.
- `spider`: search engines, their request addresses, keyword splitting;
  laws: splitting and joining, engine selection.
- `plan`: what a run does, decided from the command line (the proxy address
  checked with the `url` parser).
- `errors`: `SpiderError`.

`app/` is the program around it: command line, HTTP requests (reqwest,
futures, tokio), JSON5 records and printing.
