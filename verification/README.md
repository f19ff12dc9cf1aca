# compy

An entity-component store: entities are grouped into buckets by the set of
component types they have (their key), inserts are queued and performed in one
step, and iteration visits the buckets whose key has every member of a positive
key and none of a negative one.

Layout:

- `src/` is the verified library. Components are byte strings there:
  - `key.rs`: component ids and keys as bit sets, with the key algebra.
  - `byte_vec.rs`: a growable array of fixed-size elements.
  - `bucket.rs`: the entities of one key, column by column, with the insert
    queue, removal and iteration.
  - `id_set.rs`: captured entity indices by bucket key.
  - `compy_builder.rs`: registration of component types.
  - `compy.rs`: the store of buckets.
- `tests/` exercises the library.
- `app/` is the typed face: it turns component values into bytes and back,
  shares a store between inserting threads behind a lock, and runs the demo.
