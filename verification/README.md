# mencius

The storage engine pieces of a LevelDB-style key/value store, verified with Verus.

- `src/util`: varint and fixed-width coding, byte-string comparators, a 32-bit hash,
  filter policies, a pseudo-random generator, CRC wrappers, a sharded LRU cache, text
  formatting and random test data.
- `src/db`: internal keys and lookup keys, version edits and their encoding, the skip
  list and the memtable built on it, the iterator trait, and the write-ahead log's
  fragment planning, physical record parsing and record reassembly.
- `src/table`: blocks and block builders, filter blocks, the table footer and block
  handles, compression wrappers, table building, table reading, and the iterators that
  walk a table through its index.
- `app`: what touches files: write-ahead log writers and readers over `std::fs::File`,
  table files read at offsets, and the error type with display text.

Contracts are stated over mathematical models (sequences of bytes, sorted sequences of
keys, entry lists of the cache shards); the laws that relate several operations (encoding
round trips, block build/read round trips, filters without false negatives, log
fragments reading back, a whole log reading back as the records written, skip list contents
after an insert, seeks from any position, memtable lookups finding what was
added) are public proof functions
next to the code they speak of.
