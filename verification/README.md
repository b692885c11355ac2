# lsm_vec

Approximate nearest-neighbour search over vectors on disk: a Hierarchical
Navigable Small World graph whose bottom layer lies in an LSM-tree store, with
the vectors in a file of their own and SimHash codes to spare reads.

- `src/` is the verified library: the graph operations as machines that ask for
  actions and are told outcomes, the layout of the vector file, the records of the
  store, and the laws of all of them.
- `app/` is the database around it: SlateDB, the file system, random numbers and
  floating-point arithmetic.
- `tests/` runs the library on a store and a file in memory.

What is trusted rather than proved is in two places. `src/hash_code.rs` holds bit
vectors of the `bitvec` crate, and `src/buffers.rs` byte buffers of the `bytes`
crate; each function there says what it takes for granted.

Distances are carried as the bit patterns of single-precision numbers
(`src/scalar.rs`): the library compares them and never computes with them.
