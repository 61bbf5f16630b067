# Nectan

Nectan finds devices nearby and sends files between them. This crate is its core: the
trees of files, the messages and their binary form, the handshake between devices, the
bookkeeping of transfers, and what the window shows of all that. Its functions are
verified with Verus; the exception are small wrappers around calls into other crates,
whose contracts are taken for granted.

- `src/` is the library. `path.rs`, `windows.rs` and `tree_model.rs` say what paths and
  trees are, `path_tree.rs` works on them, `tree_laws.rs`, `tree_places.rs`,
  `tree_codec.rs` and `tree_lossy.rs` hold what is proved of them. The wrappers stand in
  `wire.rs` (binary form, compression), `crypto.rs` (keys, base64), `storage_utils.rs`
  (JSON), `queue.rs` (the bit set), `code_lookup.rs` and `messages.rs` (random numbers)
  and `text.rs` (functions of `String`); each says what it claims of the call.
- `tests/` runs the library, with the real crates behind it.
- `app/` is the desktop program around it: network, disk and window.
