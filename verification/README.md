# henny

A local document search engine over a folder of HTML, PDF and XML/XHTML
files, ranked by BM25 or TF-IDF, with an HTTP backend and a GTK4 client.

## Layout

- `src/` is the library, verified with Verus:
  - `text.rs`: how a text is cut into words;
  - `vocab.rs`: stemming, lower-casing and the string interner that gives
    terms their keys;
  - `doc.rs`: a document as counts per key, built from a text or a file;
  - `formats.rs`: file formats and how the text of each is obtained;
  - `corpus.rs`: the documents of an index, indexing a batch of files,
    query keys and document frequencies;
  - `rank.rs`: ordering documents by score;
  - `server.rs`: routing, request parameters and the replies of the backend;
  - `client.rs`: the request URLs and result rows of the desktop client;
  - `laws.rs`: properties that span several operations.
- `app/` holds the programs around it: the backend's main loop, file and
  network I/O, the floating-point scores of both ranking schemes, and the
  GTK4 window. The backend runs the static front-end server when given
  `--frontend` and the desktop client when given `--gtk`.
- `tests/` runs the library on concrete inputs.
