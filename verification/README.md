# rivia

Path utilities and a purely memory based virtual filesystem, written in Verus: every function
of the library carries a contract over a mathematical model, and Verus proves it.

## Layout

* `src/` — the verified library
  * `path.rs` — lexical path handling: components, `clean`, `mash`, `relative`, `dir`, `base`,
    extensions, prefixes and suffixes, protocol trimming
  * `path_lemmas.rs` — reading back what `join` writes, the shape of `clean`'s result and its
    idempotence, `relative` undone by `mash`, `dir` and `base`, `parse_paths` as split and
    filter
  * `expand.rs` — `~` and `$VAR` / `${VAR}` expansion from an environment given as pairs
  * `entry.rs`, `entry_iter.rs`, `entry_sort.rs` — filesystem entries and the iteration over
    one directory, with sorting by name or by an order the caller gives
  * `entries.rs` — recursive traversal with depth limits, link following and loop detection,
    filters, sorting, contents-first ordering, and an operation run before entering each
    directory; `entries_lemmas.rs` holds what traversals yield (entries of the filesystem, exact
    filters, depth zero, listing orders), `entries_depth.rs` the depth of each entry yielded,
    `entries_order.rs` what contents-first ordering moves, `entries_siblings.rs` the order in
    which the entries of each directory are yielded
  * `memfs.rs`, `file.rs` — the memory filesystem and handles on its files
  * `chmod.rs`, `chown.rs`, `copy.rs` — permission, ownership and copy operations
* `tests/` — tests run against the compiled library
* `app/` — what touches the machine: the standard filesystem backend (`std::fs`, `nix`), the
  switch between the two backends, `std::io` adapters, printable errors

The standard filesystem backend resolves paths, decides permission changes and copy
destinations, and traverses trees with the library's verified functions; it only reads and
writes the disk.
