# ppann

Privacy-preserving approximate nearest neighbour search over an NSG graph,
with the search logic verified in Verus.

## Layout

- `src/` — the verified library.
  - `cmov.rs`, `cmov/` — branch-free conditional select, move and swap
    (the `CMov` trait for every integer type and `bool`, byte-buffer swaps).
  - `coprime.rs` — `gcd`, Bezout, and the injectivity of the affine slot hash.
  - `node.rs` — node records (vector components as single-precision bit
    patterns, a fixed-size adjacency list padded with `usize::MAX`).
  - `pool.rs`, `pool/` — the unified pool: hubs in a map, every other node in
    single-use replicas at hashed slots; the rebuild for each epoch
    (`oblivious_reconstruct`), the fetches `get` and `get_normal_only`.
  - `ppann.rs` — the decisions of the best-first graph search as a state
    machine (`Router`): which candidate to fetch, how a fetched node updates
    the frontier and the result pool, and the sorted, filtered results;
    `ppann/visits.rs` shows that the results are distinct visited nodes.
  - `text.rs`, `data_read.rs` — parsers for the data files (`.fvecs`,
    `.ivecs`, the NSG graph, the hub list, the warm-up frequencies) and the
    recall hit counts; `data_read/encoding.rs` shows that reading an
    encoded `.fvecs` list gives it back.
  - `outside.rs` — the calls into `xxhash-rust`, `rand` and `byteorder`,
    with their contracts.
- `app/` — the experiment program: file reading, the single-precision
  distances and Chernoff replica counts, timing, and the search loop that
  drives `Router`.
- `tests/` — tests of the library.
