# cbpe_fast

An encoder and decoder for combinatorial byte-pair-encoding tokenizers, verified with Verus.

A text is cut into units: what stands before a word, the word, and the punctuation after it. Every
unit becomes tokens of four ids: a core, the variation that its spelling has (as it stands, with a
capital, in capitals, in traditional Han characters), and the prefix and suffix that it carries.
Units that have been encoded before are looked up in a cache.

## Layout

- `src/tables.rs`, `src/tok.rs`: the tables of a tokenizer and its tokens, as mathematical objects.
- `src/model.rs`, `src/fx.rs`: the tables in executable form, on the hash tables of `rustc_hash`.
- `src/utf8.rs`: characters in bytes.
- `src/bpe.rs`, `src/segment.rs`: merging symbols, folding characters, cutting words at camel humps.
- `src/unit.rs`, `src/text.rs`: units, their affixes, and texts.
- `src/marks.rs`, `src/blocks.rs`: finding units sixty-four bytes at a time.
- `src/hash.rs`, `src/cache.rs`: the cache of units.
- `src/decode.rs`, `src/batch.rs`: ids back to bytes, and tokens of many texts in one table.
- `src/round_trip.rs`, `src/splits.rs`, `src/bounds.rs`, `src/laws.rs`: what holds of all this
  together.
- `app/`: the Python extension module.

## What is believed without proof

The contracts in `src/fx.rs` on insertion into and look-up in `FxHashMap` and `FxHashSet`.
