# ivf_fraud

Fraud scoring of card transactions by their nearest reference transactions:
a request becomes a 14-dimension feature vector, an inverted-file (IVF)
index of quantized reference vectors finds its 5 nearest neighbours, and the
share of fraudulent neighbours decides the answer (approved below 3 of 5).

## Layout

- `src/` — the library, with its contracts proved:
  - `format.rs`: the index and its little-endian file format, with the
    write/read round trip proved;
  - `packing.rs`: cluster offsets, the block-strided vector layout and the
    dimension-major centroid table an index is built from;
  - `engine.rs`: order codes of `f32` distances, top-N selection over them,
    the five nearest candidates kept during a scan, the fraud count and the
    approval rule;
  - `http.rs`, `response.rs`: request framing on a connection buffer,
    routing, and the fixed responses;
  - `scan.rs`, `timestamp.rs`, `vectorize.rs`: the byte scanner that reads a
    request body without a JSON parser;
  - `vector.rs`: RFC 3339 timestamps, hour of day and day of week;
  - `aligned.rs`, `bytes_le.rs`, `kmeans.rs`, `simd.rs`: aligned storage,
    byte encodings, the k-means random generator and kernel selection.
- `tests/` — tests of the library.
- `app/` — the programs around it: the HTTP API (hyper/tokio), the epoll
  server fed by a load balancer, the index builder (k-means with rayon), and
  the floating-point parts: distance kernels, search and feature scaling.
