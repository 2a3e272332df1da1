# vectordb

A small in-memory vector database, verified with Verus.

- `src/store.rs`: the vector store (flat buffer, id map, tombstone deletes),
  its abstract view `StoreView`, and the laws of insert, get, delete and len.
- `src/eval.rs`: recall@k over ids, as an exact fraction, with its laws.
- `src/dataset.rs`: the seeded linear congruential generator.
- `src/distance.rs`: the distance marker types.
- `app/`: the floating-point side (distances, ranked search results, recall
  as `f32`, gaussian test data), built on the verified library.
