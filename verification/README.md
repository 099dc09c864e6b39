# sagelib

An embedded, multi-tenant retrieval engine. Documents are split into paragraph chunks,
each tenant's chunks are indexed by search term, and a query scores only the chunks of
the tenant that asks (TF-IDF).

The library under `src/` is verified with Verus:

- `text` — trimming, paragraph splitting and word tokenization, each stated as a spec
  function over `Seq<char>` and implemented by a verified scan.
- `index` — chunks, postings and the per-tenant inverted index, whose meaning is stated
  over the sequence of stored chunks (`TenantIndex::represents`).
- `operators` — the paragraph chunker and the retriever.
- `pipeline` — the chunk store and the pipeline: ingestion, and the scoring summands of
  a query (`query_plan`) and the rendering of the top results (`render_top`).
- `laws` — properties of the whole: tenant isolation, completeness of retrieval, that a
  tenant's results depend on that tenant's documents alone (whatever other tenants store,
  before, between or after them), the shape of chunks and terms, and how chunking
  composes with joining paragraphs by blank lines.

`app/` holds what cannot be verified: file-system ingestion through `glob`, the
floating-point TF-IDF ranking, and the Node.js (napi) and Python (pyo3) bindings.
