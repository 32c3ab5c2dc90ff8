# stringstore

String interning with stable `u32` indices, verified with [Verus](https://github.com/verus-lang/verus).

A `UniqueStrStore` holds each distinct string once. Index 0 is the empty string, indices 1 to 255
are the ISO-8859-1 characters; every other string gets the next free index when it is inserted and
keeps it. Strings can be split at one or several delimiters, stored part by part and put back
together from the indices of the parts.

## Layout

- `src/contents.rs`: the model of a store, a sequence of texts, and what inserting does to it.
- `src/store.rs`: the store itself; `src/handles.rs`: handles of stored strings.
- `src/split.rs`, `src/token.rs`, `src/regex_token.rs`: splitting and tokenizing.
- `src/validate.rs`: the consistency check; `src/error.rs`: errors and their messages.
- `src/show.rs`: what is taken for granted of `std::fmt`.
- `src/hex.rs`, `src/digits.rs`, `src/integer.rs`, `src/order.rs`, `src/text.rs`: numbers and text.
- `src/laws.rs`, `src/token_laws.rs`: what holds of every store and of every tokenized string.
- `src/index.rs`, `src/pattern.rs`: the hash map, the hash function and the regular expressions
  of outside crates, with what is taken for granted of them.
- `app/`: the store behind a lock for use by several threads, and what needs traits or crates
  that the verifier does not take.

Strings are hashed with the 64-bit XXH3 of the `xxhash-rust` crate. It is called directly: the
crate `custom_xxh3`, which offers the same hash, is published as a git repository only.

A `StoredStr` borrows the store. A `StoredStrPtr` does not: it shares the string with the store,
so that it can be kept while the store grows.

The methods of the store that change it take `&mut self`. Those that can meet a hash collision or
a full store require that they do not; each has a `checked_` companion that tests for it.
