# slha

A verified reader for SUSY Les Houches Accord (SLHA) files, written in Verus.

An SLHA file is a sequence of `BLOCK`s and `DECAY` tables. It can be read in two ways:

* into an `Slha` object (`Slha::parse`), whose blocks are looked up by (case-insensitive)
  name and read into the desired type on demand (`get_block`, `get_blocks`,
  `get_blocks_unchecked`, `get_raw_blocks`) and whose decay tables are read completely
  (`get_decay`);
* field by field, as an implementation of `SlhaDeserialize` does (`deserialize::deserialize_block`
  for a block field whose type implements `WrappedBlock`, `deserialize::deserialize_vec_block`
  for a `Vec` field whose blocks must have different scales, `deserialize::deserialize_decays`
  for the decay tables, by pdg id).

  Each call reads one field. A struct whose fields are read one call after another reports, when
  several fields fail, the failure of the first field in the order of the calls; reading all
  fields in one pass over the file would report the failure that comes first in the file.

Floating point numbers are kept as their text (`Real`), checked against the grammar of Rust's
`f64` parser; `app/` turns them into `f64` and compares block scales as numbers.

## Layout

* `src/text.rs` – whitespace, words, comments and lines.
* `src/number.rs` – integer and floating point number texts.
* `src/parseable.rs` – `Real`, `ParseableWord` and `Parseable` (words, vectors and tuples).
* `src/block.rs` – `Line`, `RawBlock`, `SlhaBlock`, `Block`, `BlockStr` and `BlockSingle`.
* `src/internal.rs` – splitting a file into segments; decay tables.
* `src/slha.rs` – the `Slha` object, its getters and the check of block scales.
* `src/modifier.rs` – `WrappedBlock`, `VecUnchecked`, `TakeFirst` and `TakeLast`.
* `src/deserialize.rs` – reading fields directly from a file.
* `src/parse_result.rs` – reading a value from the start of a text.
* `src/errors.rs` – error kinds and chains of causes.
* `app/lib.rs` – numbers, scale keys and error messages.

Every function in `src/` carries a contract that Verus proves; the laws that relate several
functions are the public `lemma_*` proof functions.
