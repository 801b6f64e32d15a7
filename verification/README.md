# phpm

A PHP dependency manager that keeps every package version once, in a global
store, and materializes each project's `vendor/` from it with hard links.
Dependency resolution and script events are delegated to Composer.

- `src/` is the library, verified with Verus: reading composer.json and
  composer.lock, the store layout and its integrity digest, the dist and git
  acquisition plans, the decisions of a vendor/ sync, the autoload files,
  the gc plan and the project registry. Contracts are stated over `Seq`,
  `Set` and `Map` models; the laws (read-after-write of the map, the gc plan
  removing exactly the unreferenced packages, the registry reading back what
  it wrote, the digest not depending on the listing order) are proof
  functions next to the code they speak of.
- `app/` is the command-line program: the file system, HTTP, file locks and
  child processes around the library.
- `tests/` exercise the library on concrete values.
