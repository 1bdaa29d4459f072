# rcore

An in-process search core: documents are pushed in as JSON, their text is
stored and indexed by line at once, and a background worker fills in their
embedding vectors. Callers search by meaning (dense), by exact terms
(keyword) or by both fused with Reciprocal Rank Fusion (hybrid), grep the
stored text with regular expressions, and slice documents by line range.

The library under `src/` is written in Verus and proved against its
contracts:

| module     | what it holds |
|------------|---------------|
| `text`     | newline normalization, line splitting, byte offsets of lines, token estimates, tokenizers |
| `chunk`    | line-snapped chunking of a document by token budget with overlapping lines, starting a new chunk at each boundary line |
| `keyword`  | token multisets and the keyword score; ranking puts coverage before density |
| `json`     | JSON values with ordered, duplicate-free objects |
| `filter`   | metadata filters (`all`, `any`, `tags_all`, `tags_any`) over a segment's effective metadata |
| `keyed`    | vectors of keyed entries read as maps |
| `store`    | collections, documents and segments; ingest, embedding jobs, slicing, deletion |
| `grep`     | regular-expression search over stored text |
| `rank`     | exact rational scores and a verified merge sort |
| `search`   | candidate selection, keyword ranking, rank fusion, top-k with a per-document cap |
| `embed`    | the hashing embedder's bucket counts, session sizing, device names |
| `request`  | reading request payloads |
| `protocol` | the `{"ok": ..}` response envelopes |
| `dispatch` | one handler per protocol method |
| `laws`     | properties that span several operations |

`app/` is the C ABI around it: the process-wide store behind a lock, the
worker threads, the floating-point side of embedding and dense scoring, and
JSON text in and out. `tests/` exercise the library as a caller would.
