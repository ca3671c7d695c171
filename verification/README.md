# moq_path

Broadcast paths: sequences of non-empty parts, written with slashes between them, with prefix
matching that respects part boundaries. `PathPrefixes` is a canonical list of paths of which none
covers another.

- `src/` is the verified library. `model.rs`, `order.rs` and `cover.rs` say what a path is, how
  paths are ordered and what a list of prefixes covers; `laws.rs` states what holds of them as a
  whole; the other modules hold the code with its contracts.
- `app/` is ordinary Rust around it: the ordering, iteration, serialization and wire coding traits
  on wrappers of the library's types.
- `tests/` holds the tests of the library.
