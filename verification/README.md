# bao

A verified decoder for Bao. Content is stored with a binary tree of hashes over its chunks, either
interleaved with it (combined) or next to it (outboard), or cut down to what some part of the
content needs (a slice). Whoever knows the root hash can read and seek, and gets verified bytes or
an error.

- `src/` is the library, verified with [Verus](https://github.com/verus-lang/verus). `src/lib.rs`
  says what the modules are for.
- `app/` connects it to `std::io` readers.
- `tests/` runs it.

Three things from outside crates are trusted to do what their contracts say: BLAKE2s in its tree
mode (`blake2s_simd`), comparison in constant time (`constant_time_eq`), and a stack of fixed
capacity (`arrayvec`). Of BLAKE2s nothing is assumed but that it is a function of its input: where a
law needs that hashes do not collide, it says which ones.
