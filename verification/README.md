# pelorus

The networking, sandboxing and layout core of a browser, written in Verus:
each function's behaviour is stated in its `requires` / `ensures` and proved.

- `src/net/` — public suffix list, partition keys, HSTS preload list, cookie
  jar and connection pool (both partitioned), HTTP/1.1 response parsing and
  chunked decoding, redirect policy, DNS messages, resolver choice and the
  partitioned DNS cache, TLS configuration, and the decisions a fetch takes
  as bytes arrive.
- `src/sandbox/` — the seccomp filter program and the outcome of applying it,
  and the platform trust anchors read from PEM bundles.
- `src/layout/` — saturating app-unit lengths, text measurement, greedy line
  breaking, float placement, box-model arithmetic, the partition of a styled
  document's content and its intrinsic sizes, block layout of a whole
  document, and the flat fragment tree.
- `src/text_ops.rs`, `src/numbers.rs` — the string and decimal operations the
  rest is specified with.
- `app/` — the parts that touch the world (sockets, the system resolver, files,
  `prctl`), handing plain values to the library and acting on its answers.
- `tests/` — ordinary Rust tests run against the compiled library.
