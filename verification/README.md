# stratodb

The verified core of StratoDB, an embedded document store that shreds typed
values into a tree of nodes kept in one key-value table per document table.

## Layout

- `src/` — the library, verified with Verus:
  - `bytes`, `codec`, `text`: big-endian integers, bytewise order, the
    length-prefixed byte codec and text building blocks.
  - `scalar`, `temporal`, `key`, `path`: scalar leaves and their exact storage
    encoding, node keys, and path text.
  - `ordered`: the order-preserving encoding of index columns.
  - `engine`: table keys and values with their byte forms, the in-memory node
    store a packed entity is built in, and the archived form it is read from.
  - `index`: index definitions, path patterns, the registry, and the entries
    and key blocks index maintenance writes and removes.
  - `value`, `export`: in-memory documents and their JSON and YAML rendering.
  - `access`, `cache`, `db`, `data`: the read cursors' decisions, the per-table
    LRU caches, the database-wide rules, and the scalar value mapping.
  - `bignum`: big integers, decimal big floats and rationals as plain parts,
    with the calls into `num-bigint`, `num-rational` and `num-bigfloat`
    that compute on them (their storage and index encodings live in
    `scalar` and `ordered`); `decimal` and `fraction_order` prove that big
    floats and rationals get keys in numeric order.
  - `list_edit`: which positions the element-removing list operations touch,
    and the back-to-front order that keeps every removal on its element.
- `tests/` — tests of the library.
- `app/` — the storage side around it: the redb tables, rkyv archives of packed
  entities, the caches behind their locks, and the database handle.

## Not here

- The typed accessors over a live transaction (sequence, map, optional and
  leaf readers and writers, and the read cursor): they forward to a
  transaction and tree layer that this crate does not contain. Their index
  decisions are in `list_edit` and `access`.
- Storing a big number as a byte leaf instead of a native scalar: the
  big-number types are native scalars here.
