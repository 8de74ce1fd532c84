# pathmap

A map from byte paths to values, kept as a radix-256 trie, with its whole-map algebra
(join, meet, subtract, restrict), zippers that move over the trie and write to it, lazy
zippers that stand for an algebraic combination of other zippers, and the `.paths` record
format. The library is verified with Verus against its contracts, with four trusted
wrappers around std whose contracts are believed, not proved: `hash_one` in
`src/merkleization.rs` (the default hasher, of which nothing is claimed), and
`range_inclusive_start`, `range_inclusive_end` and `range_inclusive_exhausted` in
`src/utils.rs` (the bounds of a `RangeInclusive<u8>`). `src/utils.rs` also declares std's
range types `RangeFull`, `RangeFrom`, `RangeTo` and `RangeToInclusive` so that they can stand in
signatures.

## Layout

- `src/utils.rs` — byte masks (`ByteMask`, `BitMask`) and byte-slice helpers.
- `src/ring.rs` — the lattice algebra on values (`Lattice`, `DistributiveLattice`).
- `src/trie.rs`, `src/trie_ops.rs` — the trie, depth-first order, and the node-level algebra.
- `src/pathmap.rs` — `PathMap`: reads, writes, removal, listing, and the map algebra.
- `src/zipper.rs`, `src/zipper_moving.rs` — read and write zippers, the `ZipperMoving`
  abstraction, and iteration in depth-first order.
- `src/zipper_algebra.rs` — merging zippers into a write zipper: two-way, three-way, N-way
  and disjunctive normal form.
- `src/restrict_zipper.rs`, `src/subtract_zipper.rs`, `src/overlay_zipper.rs`,
  `src/prefix_zipper.rs` — lazy zippers.
- `src/trie_ref.rs` — references to a location in a trie.
- `src/merkleization.rs` — finding repeated subtries.
- `src/counters.rs` — occupancy statistics of a trie, depth by depth.
- `src/paths_serialization.rs` — the `.paths` records: writing them, reading them back from a
  stream that arrives in pieces, and grafting what was read.
- `src/laws.rs` — laws of the map algebra and of the lazy zippers.
- `app/lib.rs` — compression of the `.paths` stream with zlib-ng, reading and writing it,
  and printing traversals.
- `tests/` — tests of the library.
