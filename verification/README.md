# libsearch

Local search over a library of books and documents: files are discovered, read, cut into passages,
embedded, stored, searched, and answered from with citations. Everything that decides or computes is
a Verus library, whose functions state in `requires` and `ensures` what they return and change.

## Layout

- `src/` is the library, all of it verified.
  - `text`, `rows`, `order`, `rank`, `unicode`, `pattern`, `fnv`, `json`: texts, rows and orders, and
    the outside functions on them.
  - `types`, `manifest`, `journal`, `settings`, `stats`: what the app keeps.
  - `formats`, `decode`, `html`, `render`, `xml`, `rtf`, `markup`, `notebook`, `sections`,
    `extract`, `ebook`, `convert`, `book`: from files to books.
  - `chunk`: from books to passages.
  - `ids`, `plan`, `service`, `run`, `fast`, `discover`: what a run embeds, moves, refreshes or skips,
    and the runs themselves.
  - `maintenance`, `repair`: the debris of a collection and its repair.
  - `store`, `catalog`, `spell`, `query`, `ask`: rows of the store and searches.
  - `prompt`, `think`, `stream`, `llm`, `bridge`, `artifacts`: answers.
  - `citemetric`, `citecheck`: whether citations point at what they cite.
  - the modules ending in `_laws`: what holds across functions.
- `tests/` runs the library with the real outside crates.
- `app/` is the program around it: files, SQLite, the vector store, the models, the network and the
  window.

What the library has from outside crates stands behind small functions marked
`#[verifier::external_body]`. Their doc comments say what is believed of each.
Embeddings and scores are floating-point numbers, which stay in `app/`; the library orders scores by
integer keys that keep the order of the numbers.
