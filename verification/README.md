# higher_core

Core of the Higher architecture: symbols of 1 to 32 bits, bit packing, symbol
tables trained on a corpus, and the `.hgr` stream, verified with Verus.

Two functions are trusted rather than proved: `table::sha256` calls
`sha2::Sha256::digest` (its result is named, not computed, in the contracts),
and `codec::crc32` calls `crc32fast::hash`, whose result the contract states as
the bitwise CRC-32 (IEEE) spec `crc32_ieee`.

Training counts n-grams and words in verified count tries and orders the
candidates with a verified merge sort: vstd gives no specification to a
`HashMap` keyed by byte slices nor to a sort with a comparator, so neither
could carry the contracts.

- `src/model.rs`: widths, bands, variants and run names.
- `src/bitseq.rs`: the bit-level model (numbers as bits, bytes as bits) and its lemmas.
- `src/packing.rs`: most-significant-bit-first writer and reader, packing strategies.
- `src/hgr.rs`: the 36-byte stream header.
- `src/trie.rs`: byte trie for longest matches.
- `src/training.rs`, `src/ranking.rs`: counting n-grams and words, ranking candidates.
- `src/table.rs`: symbol tables, their serialisation and `table_id`.
- `src/codec.rs`: tokenisation, encode and decode, with the round-trip law.
- `src/names.rs`, `src/messages.rs`: names for the browser build and error messages.
- `app/`: the `bitbench` command line, floating-point metrics and the browser bindings.
